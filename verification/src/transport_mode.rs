//! How a consumer carries mount data.
use crate::text::{chars_of, lower, lower_text, quoted, quoted_text, text_eq, trim_chars, trimmed};
use vstd::prelude::*;

verus! {

/// Preference for the mount data path.
///
/// The relay brokers the connection, and the `WebRTC` data channel is what both
/// variants reach for. They differ in what else may answer.
#[derive(Debug, Clone, Copy, PartialEq, Eq, Structural)]
pub enum TransportMode {
    /// The origin's data channel only. ICE failure is fatal.
    WebRtc,
    /// The origin's data channel, raced against a seeder in the mesh. The relay
    /// carries the bytes where no channel does.
    Dynamic,
}

impl Default for TransportMode {
    fn default() -> (mode: Self)
        ensures
            mode == TransportMode::Dynamic,
    {
        TransportMode::Dynamic
    }
}

/// The mode a lowercase name stands for.
pub open spec fn named_mode(name: Seq<char>) -> Option<TransportMode> {
    if name == "webrtc"@ || name == "webrtc_only"@ || name == "webrtc-only"@ {
        Some(TransportMode::WebRtc)
    } else if name == "dynamic"@ || name == "preferred"@ || name == "webrtc_preferred"@ || name
        == "webrtc-preferred"@ {
        Some(TransportMode::Dynamic)
    } else {
        None
    }
}

/// What a mode string means: none or a blank one is dynamic, a name counts in
/// any case, and any other text is refused with the text.
pub open spec fn mode_of(raw: Option<Seq<char>>) -> Result<TransportMode, Seq<char>> {
    match raw {
        None => Ok(TransportMode::Dynamic),
        Some(text) => if trimmed(text).len() == 0 {
            Ok(TransportMode::Dynamic)
        } else {
            match named_mode(lower(trimmed(text))) {
                Some(mode) => Ok(mode),
                None => Err(lower(trimmed(text))),
            }
        },
    }
}

/// The refusal of a mode string.
pub open spec fn unknown_mode(name: Seq<char>) -> Seq<char> {
    "unknown transport mode "@ + quoted(name) + "; expected webrtc or dynamic"@
}

/// The label of a mode.
pub open spec fn mode_label(mode: TransportMode) -> Seq<char> {
    match mode {
        TransportMode::WebRtc => "webrtc"@,
        TransportMode::Dynamic => "dynamic"@,
    }
}

/// The text a borrowed option holds.
pub open spec fn opt_str(text: Option<&str>) -> Option<Seq<char>> {
    match text {
        Some(t) => Some(t@),
        None => None,
    }
}

impl TransportMode {
    /// Parses a mode string. An omitted or blank one is dynamic.
    ///
    /// # Errors
    /// Unknown non-blank value.
    pub fn parse(raw: Option<&str>) -> (out: Result<Self, String>)
        ensures
            match mode_of(opt_str(raw)) {
                Ok(mode) => out == Ok::<Self, String>(mode),
                Err(name) => out is Err && out->Err_0@ == unknown_mode(name),
            },
    {
        let text = match raw {
            None => return Ok(TransportMode::Dynamic),
            Some(text) => text,
        };
        let chars = chars_of(text);
        let body = trim_chars(chars.as_slice());
        if body.len() == 0 {
            return Ok(TransportMode::Dynamic);
        }
        let name = lower_text(body);
        if text_eq(name.as_str(), "webrtc") || text_eq(name.as_str(), "webrtc_only") || text_eq(
            name.as_str(),
            "webrtc-only",
        ) {
            return Ok(TransportMode::WebRtc);
        }
        if text_eq(name.as_str(), "dynamic") || text_eq(name.as_str(), "preferred") || text_eq(
            name.as_str(),
            "webrtc_preferred",
        ) || text_eq(name.as_str(), "webrtc-preferred") {
            return Ok(TransportMode::Dynamic);
        }
        let mut refusal = String::new();
        refusal.push_str("unknown transport mode ");
        refusal.push_str(quoted_text(name.as_str()).as_str());
        refusal.push_str("; expected webrtc or dynamic");
        assert(refusal@ =~= unknown_mode(name@));
        Err(refusal)
    }

    /// Requested mode as a stable lowercase label.
    #[must_use]
    pub fn as_str(self) -> (label: &'static str)
        ensures
            label@ == mode_label(self),
    {
        match self {
            TransportMode::WebRtc => "webrtc",
            TransportMode::Dynamic => "dynamic",
        }
    }
}

/// A mode's label parses back to the mode.
pub proof fn law_label_parses_back(mode: TransportMode)
    ensures
        mode_of(Some(mode_label(mode))) == Ok::<TransportMode, Seq<char>>(mode),
{
    reveal_strlit("webrtc");
    reveal_strlit("dynamic");
    reveal_strlit("webrtc_only");
    reveal_strlit("webrtc-only");
    let text = mode_label(mode);
    assert(trimmed(text) == text);
    assert(lower(text) =~= text);
    assert("webrtc"@[0] == 'w');
    assert("dynamic"@[0] == 'd');
    assert("webrtc_only"@[0] == 'w');
    assert("webrtc-only"@[0] == 'w');
}

/// A mode is asked for by any of its names, in any case and with space around it.
/// No name and a blank one ask for the dynamic mode; any other text is refused.
pub proof fn law_a_mode_is_asked_for_by_name(text: Seq<char>)
    ensures
        mode_of(None) == Ok::<TransportMode, Seq<char>>(TransportMode::Dynamic),
        trimmed(text).len() == 0 ==> mode_of(Some(text)) == Ok::<TransportMode, Seq<char>>(
            TransportMode::Dynamic,
        ),
        trimmed(text).len() > 0 ==> {
            let name = lower(trimmed(text));
            let webrtc = seq!["webrtc"@, "webrtc_only"@, "webrtc-only"@].contains(name);
            let dynamic = seq![
                "dynamic"@,
                "preferred"@,
                "webrtc_preferred"@,
                "webrtc-preferred"@,
            ].contains(name);
            &&& webrtc ==> mode_of(Some(text)) == Ok::<TransportMode, Seq<char>>(
                TransportMode::WebRtc,
            )
            &&& dynamic && !webrtc ==> mode_of(Some(text)) == Ok::<TransportMode, Seq<char>>(
                TransportMode::Dynamic,
            )
            &&& !webrtc && !dynamic ==> mode_of(Some(text)) == Err::<TransportMode, Seq<char>>(name)
        },
{
    let a = seq!["webrtc"@, "webrtc_only"@, "webrtc-only"@];
    assert(a[0] == "webrtc"@ && a[1] == "webrtc_only"@ && a[2] == "webrtc-only"@);
    let b = seq!["dynamic"@, "preferred"@, "webrtc_preferred"@, "webrtc-preferred"@];
    assert(b[0] == "dynamic"@ && b[1] == "preferred"@);
    assert(b[2] == "webrtc_preferred"@ && b[3] == "webrtc-preferred"@);
}

} // verus!
