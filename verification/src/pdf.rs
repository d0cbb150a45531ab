//! Loading a PDF document with hayro.

use vstd::prelude::*;

use hayro_interpret::hayro_syntax::{LoadPdfError, Pdf};
use hayro_interpret::InterpreterCache;

verus! {

#[verifier::external_type_specification]
#[verifier::external_body]
pub struct ExPdf(Pdf);

#[verifier::external_type_specification]
#[verifier::external_body]
pub struct ExInterpreterCache<'a>(InterpreterCache<'a>);

/// Why a document could not be loaded.
#[derive(Debug, Clone, Copy, PartialEq, Eq, Structural)]
pub enum LoadError {
    /// The document is encrypted in a way that cannot be read without a password.
    Encrypted,
    /// The bytes are not a readable PDF document.
    Invalid,
}

/// Whether hayro refuses to load the bytes `data` as a PDF document, and why.
pub uninterp spec fn load_error(data: Seq<u8>) -> Option<LoadError>;

/// Loads a document with `hayro_syntax::Pdf::new`. Trusted: the outcome is
/// taken to depend on the bytes alone (hayro reads them with an empty
/// password), Ok where hayro gives a document and the matching error where
/// it refuses one; nothing is stated of what the document holds.
#[verifier::external_body]
fn load_pdf(data: Vec<u8>) -> (r: Result<Pdf, LoadError>)
    ensures
        match r {
            Ok(_) => load_error(data@) is None,
            Err(e) => load_error(data@) == Some(e),
        },
{
    match Pdf::new(data) {
        Ok(pdf) => Ok(pdf),
        Err(LoadPdfError::Decryption(_)) => Err(LoadError::Encrypted),
        Err(LoadPdfError::Invalid) => Err(LoadError::Invalid),
    }
}

/// An empty interpreter cache, made by `hayro_interpret::InterpreterCache::new`.
/// Trusted only to return; nothing is stated of the cache.
#[verifier::external_body]
fn new_interpreter_cache<'a>() -> InterpreterCache<'a> {
    InterpreterCache::new()
}

/// A loaded PDF document with the cache its pages are interpreted with.
pub struct PDF<'a> {
    pub pdf: Pdf,
    pub cache: InterpreterCache<'a>,
}

impl<'a> PDF<'a> {
    /// Loads a document from its bytes, with an empty interpreter cache. The
    /// bytes must be a document hayro can load (see [`PDF::try_parse`] for a
    /// version that reports why one cannot be loaded).
    pub fn parse(data: Vec<u8>) -> (r: PDF<'a>)
        requires
            load_error(data@) is None,
    {
        match load_pdf(data) {
            Ok(pdf) => {
                let cache = new_interpreter_cache();
                PDF { pdf, cache }
            },
            Err(_) => vstd::pervasive::unreached(),
        }
    }

    /// Loads a document from its bytes, with an empty interpreter cache, or
    /// tells why hayro cannot load it. The bytes are first tried on their
    /// own, and loaded for use only where that succeeds.
    pub fn try_parse(data: Vec<u8>) -> (r: Result<PDF<'a>, LoadError>)
        ensures
            match r {
                Ok(_) => load_error(data@) is None,
                Err(e) => load_error(data@) == Some(e),
            },
    {
        let probe = data.clone();
        assert(probe@ =~= data@);
        match load_pdf(probe) {
            Ok(_) => Ok(PDF::parse(data)),
            Err(e) => Err(e),
        }
    }
}

} // verus!
