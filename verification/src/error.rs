//! Error types shared by the decoders and the resampler.

use vstd::prelude::*;

verus! {

/// A decoding error, independent of the backend that raised it. The text is
/// meant for people.
#[derive(Debug)]
pub enum DecodeError {
    /// The underlying I/O failed.
    Io(String),
    /// The container or a feature of the codec is not supported.
    Unsupported(String),
    /// The data is damaged or malformed.
    Decode(String),
    /// The seek failed.
    Seek(String),
}

/// What a [`DecodeError`] says: its kind and its text.
pub enum Fault {
    /// The underlying I/O failed.
    Io(Seq<char>),
    /// The container or a feature of the codec is not supported.
    Unsupported(Seq<char>),
    /// The data is damaged or malformed.
    Decode(Seq<char>),
    /// The seek failed.
    Seek(Seq<char>),
}

impl View for DecodeError {
    type V = Fault;

    open spec fn view(&self) -> Fault {
        match self {
            DecodeError::Io(m) => Fault::Io(m@),
            DecodeError::Unsupported(m) => Fault::Unsupported(m@),
            DecodeError::Decode(m) => Fault::Decode(m@),
            DecodeError::Seek(m) => Fault::Seek(m@),
        }
    }
}

impl DecodeError {
    /// A [`DecodeError::Decode`] with this text.
    pub fn decode(text: &str) -> (e: DecodeError)
        ensures
            e@ == Fault::Decode(text@),
    {
        DecodeError::Decode(text.to_owned())
    }

    /// A [`DecodeError::Unsupported`] with this text.
    pub fn unsupported(text: &str) -> (e: DecodeError)
        ensures
            e@ == Fault::Unsupported(text@),
    {
        DecodeError::Unsupported(text.to_owned())
    }

    /// A [`DecodeError::Io`] with this text.
    pub fn io(text: &str) -> (e: DecodeError)
        ensures
            e@ == Fault::Io(text@),
    {
        DecodeError::Io(text.to_owned())
    }

    /// A [`DecodeError::Seek`] with this text.
    pub fn seek(text: &str) -> (e: DecodeError)
        ensures
            e@ == Fault::Seek(text@),
    {
        DecodeError::Seek(text.to_owned())
    }

    /// A file that ends inside something that has a fixed length.
    pub fn short() -> (e: DecodeError)
        ensures
            e@ == short_file(),
    {
        DecodeError::io("failed to fill whole buffer")
    }

    /// The text shown for this error: a label for its kind, then its own text.
    pub fn message(&self) -> (text: String)
        ensures
            text@ == self.message_text(),
    {
        let mut text: String;
        match self {
            DecodeError::Io(m) => {
                text = "IO 错误：".to_owned();
                text.append(m.as_str());
            },
            DecodeError::Unsupported(m) => {
                text = "不支持：".to_owned();
                text.append(m.as_str());
            },
            DecodeError::Decode(m) => {
                text = "解码错误：".to_owned();
                text.append(m.as_str());
            },
            DecodeError::Seek(m) => {
                text = "Seek 错误：".to_owned();
                text.append(m.as_str());
            },
        }
        text
    }

    /// What [`DecodeError::message`] returns.
    pub open spec fn message_text(&self) -> Seq<char> {
        match self@ {
            Fault::Io(m) => "IO 错误："@ + m,
            Fault::Unsupported(m) => "不支持："@ + m,
            Fault::Decode(m) => "解码错误："@ + m,
            Fault::Seek(m) => "Seek 错误："@ + m,
        }
    }
}

/// What is said where a file ends inside something that has a fixed length.
pub open spec fn short_file() -> Fault {
    Fault::Io("failed to fill whole buffer"@)
}

/// Whether the result of an operation is what the model says: the same value,
/// or an error of the same kind with the same text.
pub open spec fn same_outcome<T>(r: Result<T, DecodeError>, model: Result<T, Fault>) -> bool {
    match (r, model) {
        (Ok(a), Ok(b)) => a == b,
        (Err(e), Err(f)) => e@ == f,
        _ => false,
    }
}

/// A resampling error. The text is meant for people.
#[derive(Debug)]
pub enum ResampleError {
    /// Building or running the resampler failed.
    Rubato(String),
}

impl ResampleError {
    /// The text shown for this error.
    pub fn message(&self) -> (text: String)
        ensures
            self matches ResampleError::Rubato(m) ==> text@ == "重采样错误："@ + m@,
    {
        match self {
            ResampleError::Rubato(m) => {
                let mut text: String = "重采样错误：".to_owned();
                text.append(m.as_str());
                text
            },
        }
    }
}

} // verus!
