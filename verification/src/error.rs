use vstd::prelude::*;

verus! {

/// What can go wrong during one packing run.
#[derive(Clone, Copy, Debug, PartialEq, Eq, Structural)]
pub enum PackError {
    /// The candidate set of layer files is empty.
    NoLayersFound,
    /// A layer file has no usable stem to name the layer after.
    NamingError,
    /// The bytes of a layer file are not a decodable raster image.
    DecodeError,
    /// The directory for resized copies could not be created.
    DirectoryCreateError,
    /// The combined data size does not fit the 32-bit length field.
    SizeOverflowError,
    /// The final file write failed.
    WriteError,
}

impl PackError {
    /// Whether this kind of error ends the run.
    pub open spec fn spec_is_fatal(self) -> bool {
        self != PackError::DirectoryCreateError
    }

    /// Every kind ends the run but a failure to create the directory for
    /// resized copies, which only switches that feature off.
    pub fn is_fatal(&self) -> (fatal: bool)
        ensures
            fatal == self.spec_is_fatal(),
    {
        match self {
            PackError::DirectoryCreateError => false,
            _ => true,
        }
    }
}

} // verus!
