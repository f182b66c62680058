//! Registry for the deliberately small set of model architectures supported here.
//!
//! A GGUF container is not a model-runtime contract: tensor names, cache layout, tokenizer
//! conventions, operator graph, and quantization kernels are architecture-specific. Dispatch
//! stays explicit so that adding a model means adding a complete, validated profile rather
//! than accepting an arbitrary GGUF and failing later in the forward pass.

use vstd::prelude::*;

use crate::config;
use crate::gguf::{GgufFile, Meta};

verus! {

/// A model architecture with a complete CPU execution profile.
#[derive(Debug, Clone, Copy, PartialEq, Eq, Structural, Hash)]
pub enum Architecture {
    /// Liquid AI LFM2.5-8B-A1B's hybrid short-convolution / attention MoE graph.
    Lfm2Moe,
}

/// All architectures handled by the generation loader.
pub open spec fn supported() -> Seq<Architecture> {
    seq![Architecture::Lfm2Moe]
}

/// The `general.architecture` value expected for `a`.
pub open spec fn gguf_name_of(a: Architecture) -> Seq<char> {
    match a {
        Architecture::Lfm2Moe => config::ARCH@,
    }
}

/// The stable, human-readable identifier of `a`.
pub open spec fn profile_name_of(a: Architecture) -> Seq<char> {
    match a {
        Architecture::Lfm2Moe => "lfm2.5-8b-a1b-cpu"@,
    }
}

impl Architecture {
    /// All architectures handled by the generation loader.
    pub fn supported() -> (r: Vec<Architecture>)
        ensures
            r@ == supported(),
    {
        let mut r: Vec<Architecture> = Vec::new();
        r.push(Architecture::Lfm2Moe);
        assert(r@ =~= supported());
        r
    }

    /// The `general.architecture` value expected in the GGUF metadata.
    pub fn gguf_name(self) -> (r: &'static str)
        ensures
            r@ == gguf_name_of(self),
    {
        match self {
            Self::Lfm2Moe => config::ARCH,
        }
    }

    /// Stable, human-readable identifier for diagnostics and host integrations.
    pub fn profile_name(self) -> (r: &'static str)
        ensures
            r@ == profile_name_of(self),
    {
        match self {
            Self::Lfm2Moe => "lfm2.5-8b-a1b-cpu",
        }
    }
}

/// Why no generation profile was selected.
#[derive(Debug)]
pub enum SelectError {
    MissingArchitecture,
    /// `general.architecture` names no supported profile.
    Unsupported { got: String },
}

/// The registry's answer for a file: the architecture whose `gguf_name` the file's
/// `general.architecture` string is.
pub open spec fn select_spec(g: GgufFile) -> Result<Architecture, Option<Seq<char>>> {
    match g.meta_get("general.architecture"@) {
        Some(Meta::Str(a)) => {
            if a == gguf_name_of(Architecture::Lfm2Moe) {
                Ok(Architecture::Lfm2Moe)
            } else {
                Err(Some(a))
            }
        },
        _ => Err(None),
    }
}

/// Select the execution profile named by `gguf`'s `general.architecture`.
///
/// This is deliberately a closed registry: an unknown architecture is rejected before tensor
/// lookup or kernel execution. The selected profile's metadata is validated afterwards by
/// the loader.
pub fn select_profile(gguf: &GgufFile) -> (r: Result<Architecture, SelectError>)
    ensures
        match (r, select_spec(*gguf)) {
            (Ok(a), Ok(b)) => a == b,
            (Err(SelectError::MissingArchitecture), Err(None)) => true,
            (Err(SelectError::Unsupported { got }), Err(Some(s))) => got@ == s,
            _ => false,
        },
{
    let got = match gguf.architecture() {
        Some(a) => a,
        None => return Err(SelectError::MissingArchitecture),
    };
    if crate::text::str_eq(got, Architecture::Lfm2Moe.gguf_name()) {
        Ok(Architecture::Lfm2Moe)
    } else {
        Err(SelectError::Unsupported { got: got.to_owned() })
    }
}

/// Names in double quotes, separated by `", "`.
pub open spec fn quoted_list(names: Seq<Seq<char>>) -> Seq<char>
    decreases names.len(),
{
    if names.len() == 0 {
        Seq::empty()
    } else {
        let sep = if names.len() > 1 {
            ", "@
        } else {
            Seq::empty()
        };
        quoted_list(names.drop_last()) + sep + "\""@ + names.last() + "\""@
    }
}

/// The supported generation profiles as listed in diagnostics: each `gguf_name` in double
/// quotes, separated by `", "`.
pub fn supported_list() -> (s: String)
    ensures
        s@ == quoted_list(supported().map_values(|a: Architecture| gguf_name_of(a))),
{
    let archs = Architecture::supported();
    let ghost names = supported().map_values(|a: Architecture| gguf_name_of(a));
    let mut s = String::new();
    let mut i: usize = 0;
    assert(names.take(0) =~= Seq::<Seq<char>>::empty());
    while i < archs.len()
        invariant
            archs@ == supported(),
            names == supported().map_values(|a: Architecture| gguf_name_of(a)),
            i <= archs@.len(),
            s@ == quoted_list(names.take(i as int)),
        decreases archs@.len() - i,
    {
        assert(names.take(i + 1 as int).drop_last() =~= names.take(i as int));
        if i > 0 {
            s.append(", ");
        }
        s.append("\"");
        s.append(archs[i].gguf_name());
        s.append("\"");
        i += 1;
        assert(s@ =~= quoted_list(names.take(i as int)));
    }
    assert(names.take(i as int) =~= names);
    s
}

} // verus!
