use vstd::prelude::*;

verus! {

/// Element type of a slice, as carried in the slice's one-byte dtype code.
#[derive(Copy, Clone, Debug, PartialEq, Eq, Structural)]
pub enum DType {
    F16,
    I8,
    Q4,
    SparseCoo,
}

/// Wire code of each element type.
pub open spec fn dtype_code(d: DType) -> u8 {
    match d {
        DType::F16 => 0x01,
        DType::I8 => 0x02,
        DType::Q4 => 0x03,
        DType::SparseCoo => 0x10,
    }
}

/// The element type a wire code stands for, if any.
pub open spec fn dtype_of_code(b: u8) -> Option<DType> {
    if b == 0x01 {
        Some(DType::F16)
    } else if b == 0x02 {
        Some(DType::I8)
    } else if b == 0x03 {
        Some(DType::Q4)
    } else if b == 0x10 {
        Some(DType::SparseCoo)
    } else {
        None
    }
}

impl DType {
    pub fn from_u8(val: u8) -> (r: Option<DType>)
        ensures
            r == dtype_of_code(val),
    {
        match val {
            0x01 => Some(DType::F16),
            0x02 => Some(DType::I8),
            0x03 => Some(DType::Q4),
            0x10 => Some(DType::SparseCoo),
            _ => None,
        }
    }

    /// The one-byte wire code of this element type.
    pub fn code(&self) -> (r: u8)
        ensures
            r == dtype_code(*self),
    {
        match self {
            DType::F16 => 0x01,
            DType::I8 => 0x02,
            DType::Q4 => 0x03,
            DType::SparseCoo => 0x10,
        }
    }
}

/// Category of the data carried by a frame.
#[derive(Copy, Clone, Debug, PartialEq, Eq, Structural)]
pub enum Modality {
    Text,
    Image,
    Audio,
    Graph,
    Mixed,
}

/// Wire code of each modality.
pub open spec fn modality_code(m: Modality) -> u8 {
    match m {
        Modality::Text => 0,
        Modality::Image => 1,
        Modality::Audio => 2,
        Modality::Graph => 3,
        Modality::Mixed => 4,
    }
}

/// The modality a wire code stands for, if any.
pub open spec fn modality_of_code(b: u8) -> Option<Modality> {
    if b == 0 {
        Some(Modality::Text)
    } else if b == 1 {
        Some(Modality::Image)
    } else if b == 2 {
        Some(Modality::Audio)
    } else if b == 3 {
        Some(Modality::Graph)
    } else if b == 4 {
        Some(Modality::Mixed)
    } else {
        None
    }
}

impl Modality {
    pub fn from_u8(val: u8) -> (r: Option<Modality>)
        ensures
            r == modality_of_code(val),
    {
        match val {
            0 => Some(Modality::Text),
            1 => Some(Modality::Image),
            2 => Some(Modality::Audio),
            3 => Some(Modality::Graph),
            4 => Some(Modality::Mixed),
            _ => None,
        }
    }

    /// The one-byte wire code of this modality.
    pub fn code(&self) -> (r: u8)
        ensures
            r == modality_code(*self),
    {
        match self {
            Modality::Text => 0,
            Modality::Image => 1,
            Modality::Audio => 2,
            Modality::Graph => 3,
            Modality::Mixed => 4,
        }
    }
}

/// Decoding a wire code gives back the element type it was written from.
pub proof fn lemma_dtype_code_round_trip(d: DType)
    ensures
        dtype_of_code(dtype_code(d)) == Some(d),
{
}

/// Decoding a wire code gives back the modality it was written from.
pub proof fn lemma_modality_code_round_trip(m: Modality)
    ensures
        modality_of_code(modality_code(m)) == Some(m),
{
}

} // verus!
