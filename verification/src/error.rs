use vstd::prelude::*;

verus! {

/// Errors reported by the logging engine.
#[derive(Debug)]
pub enum ScribeError {
    Io(std::io::Error),
    Mmap(String),
    DiskFull,
    BufferFull,
    AlreadyInitialized,
    NotInitialized,
    InvalidFrame,
    CrcMismatch,
    Compression(String),
    Encryption(String),
}

pub type Result<T> = std::result::Result<T, ScribeError>;

/// The text shown for an I/O error: the error's own `Display` output.
#[verifier::external_body]
pub(crate) fn io_error_text(e: &std::io::Error) -> String {
    format!("{}", e)
}

/// Appends `s` to `dst`.
pub(crate) fn push_str(dst: &mut String, s: &str)
    ensures
        final(dst)@ == old(dst)@ + s@,
{
    dst.append(s);
}

/// Concatenation of a fixed prefix and a detail text.
pub(crate) fn concat_str(prefix: &str, detail: &str) -> (r: String)
    ensures
        r@ == prefix@ + detail@,
{
    let mut s = prefix.to_owned();
    push_str(&mut s, detail);
    s
}

impl ScribeError {
    /// The human-readable description of the error.
    pub fn message(&self) -> (r: String)
        ensures
            match self {
                ScribeError::Io(_) => r@.len() >= "IO error: "@.len() && r@.subrange(0, "IO error: "@.len() as int) == "IO error: "@,
                ScribeError::Mmap(s) => r@ == "mmap error: "@ + s@,
                ScribeError::DiskFull => r@ == "Disk full"@,
                ScribeError::BufferFull => r@ == "Buffer full"@,
                ScribeError::AlreadyInitialized => r@ == "Already initialized"@,
                ScribeError::NotInitialized => r@ == "Not initialized"@,
                ScribeError::InvalidFrame => r@ == "Invalid log frame"@,
                ScribeError::CrcMismatch => r@ == "CRC mismatch"@,
                ScribeError::Compression(s) => r@ == "Compression error: "@ + s@,
                ScribeError::Encryption(s) => r@ == "Encryption error: "@ + s@,
            },
    {
        match self {
            ScribeError::Io(e) => {
                let detail = io_error_text(e);
                let r = concat_str("IO error: ", detail.as_str());
                assert(r@.subrange(0, "IO error: "@.len() as int) =~= "IO error: "@);
                r
            },
            ScribeError::Mmap(s) => concat_str("mmap error: ", s.as_str()),
            ScribeError::DiskFull => "Disk full".to_owned(),
            ScribeError::BufferFull => "Buffer full".to_owned(),
            ScribeError::AlreadyInitialized => "Already initialized".to_owned(),
            ScribeError::NotInitialized => "Not initialized".to_owned(),
            ScribeError::InvalidFrame => "Invalid log frame".to_owned(),
            ScribeError::CrcMismatch => "CRC mismatch".to_owned(),
            ScribeError::Compression(s) => concat_str("Compression error: ", s.as_str()),
            ScribeError::Encryption(s) => concat_str("Encryption error: ", s.as_str()),
        }
    }
}

impl From<std::io::Error> for ScribeError {
    fn from(e: std::io::Error) -> (r: ScribeError) {
        ScribeError::Io(e)
    }
}

impl vstd::std_specs::convert::FromSpecImpl<std::io::Error> for ScribeError {
    open spec fn obeys_from_spec() -> bool {
        true
    }

    open spec fn from_spec(e: std::io::Error) -> ScribeError {
        ScribeError::Io(e)
    }
}

} // verus!
