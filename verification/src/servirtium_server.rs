//! The interaction-mode state machine of the fixture server: which mode a
//! test installed, what state a test preparation leaves behind, and how an
//! accepted connection is to be answered. The listener socket, the background
//! thread and the locks that carry this state across threads live in the
//! surrounding binary; every decision they act on is made — and verified —
//! here.

use crate::playback::{
    parse_header_lines, spec_parse_headers, parse_header_line_str, spec_decode, PlaybackData,
    PlaybackDataView,
};
use crate::response::{playback_response, spec_playback_response};
use crate::servirtium_error::ServirtiumServerError;
use crate::text::split_str_lines;
use vstd::prelude::*;
use vstd::string::*;

verus! {

/// How a test wants the server to treat connections: replay a loaded
/// fixture, or capture a live interaction to a fixture file.
#[derive(Debug, Clone, Copy, PartialEq, Eq)]
pub enum ServirtiumMode {
    Playback,
    Record,
}

/// The state a test preparation installs: nothing yet, a fixture loaded for
/// playback, or a path to record to.
#[derive(Debug, Clone)]
pub enum ServirtiumInteractionMode {
    Playback(PlaybackData),
    Recording(String),
    NotSet,
}

/// The mathematical shadow of [`ServirtiumInteractionMode`].
pub ghost enum InteractionMode {
    Playback(PlaybackDataView),
    Recording(Seq<char>),
    NotSet,
}

impl View for ServirtiumInteractionMode {
    type V = InteractionMode;

    open spec fn view(&self) -> InteractionMode {
        match self {
            ServirtiumInteractionMode::Playback(d) => InteractionMode::Playback(d@),
            ServirtiumInteractionMode::Recording(p) => InteractionMode::Recording(p@),
            ServirtiumInteractionMode::NotSet => InteractionMode::NotSet,
        }
    }
}

/// The mathematical shadow of [`ServirtiumServer`].
pub ghost struct ServirtiumServerView {
    pub interaction_mode: InteractionMode,
    pub domain_name: Option<Seq<char>>,
}

/// The fixture server's shared state: the current interaction mode and the
/// upstream domain the current test named. One value of this type is meant
/// to live for the whole process, behind a lock owned by the surrounding
/// binary; it is read by the connection handler and replaced by test
/// preparations.
pub struct ServirtiumServer {
    interaction_mode: ServirtiumInteractionMode,
    domain_name: Option<String>,
}

impl View for ServirtiumServer {
    type V = ServirtiumServerView;

    closed spec fn view(&self) -> ServirtiumServerView {
        ServirtiumServerView {
            interaction_mode: self.interaction_mode@,
            domain_name: self.domain_name.deep_view(),
        }
    }
}

impl ServirtiumServer {
    /// A fresh server: no mode installed, no domain named.
    pub fn new() -> (s: Self)
        ensures
            s@.interaction_mode is NotSet,
            s@.domain_name is None,
    {
        ServirtiumServer { interaction_mode: ServirtiumInteractionMode::NotSet, domain_name: None }
    }

    /// Scan a headers block line by line: every `Name: Value` line yields
    /// its trimmed pair, order and duplicates preserved, and lines of any
    /// other shape are ignored rather than rejected.
    pub fn parse_headers(headers_part: &str) -> (r: Vec<(String, String)>)
        ensures
            r.deep_view() == spec_parse_headers(headers_part@),
    {
        let lines = split_str_lines(headers_part);
        let mut out: Vec<(String, String)> = Vec::new();
        let mut i: usize = 0;
        proof {
            assert(lines.deep_view().take(0) =~= Seq::<Seq<char>>::empty());
            assert(out.deep_view() =~= parse_header_lines(lines.deep_view().take(0)));
        }
        while i < lines.len()
            invariant
                0 <= i <= lines@.len(),
                lines.deep_view() == crate::text::split_lines(headers_part@),
                out.deep_view() == parse_header_lines(lines.deep_view().take(i as int)),
            decreases lines@.len() - i,
        {
            let ghost dv = lines.deep_view();
            let ghost pre = dv.take(i as int);
            proof {
                crate::playback::lemma_parse_header_lines_add(pre, seq![dv[i as int]]);
                assert(dv.take(i + 1) =~= pre + seq![dv[i as int]]);
                assert(seq![dv[i as int]].drop_first() =~= Seq::<Seq<char>>::empty());
            }
            match parse_header_line_str(lines[i].as_str()) {
                Some(kv) => {
                    let ghost kvv = (kv.0@, kv.1@);
                    proof {
                        assert(parse_header_lines(Seq::<Seq<char>>::empty()) == Seq::<(
                            Seq<char>,
                            Seq<char>,
                        )>::empty());
                        assert(parse_header_lines(seq![dv[i as int]]) =~= seq![kvv]);
                        assert(parse_header_lines(dv.take(i + 1)) =~= parse_header_lines(
                            pre,
                        ).push(kvv));
                    }
                    let ghost old_out = out;
                    out.push(kv);
                    proof {
                        assert(out.deep_view() =~= old_out.deep_view().push(kvv));
                    }
                },
                None => {
                    proof {
                        assert(parse_header_lines(Seq::<Seq<char>>::empty()) == Seq::<(
                            Seq<char>,
                            Seq<char>,
                        )>::empty());
                        assert(parse_header_lines(seq![dv[i as int]])
                            =~= Seq::<(Seq<char>, Seq<char>)>::empty());
                        assert(parse_header_lines(dv.take(i + 1)) =~= parse_header_lines(pre));
                    }
                },
            }
            i = i + 1;
        }
        proof {
            assert(lines.deep_view().take(lines@.len() as int) =~= lines.deep_view());
        }
        out
    }

    /// Install a test's mode and domain into the shared state. For
    /// `Playback`, `script` is the fixture document's text (the caller reads
    /// the file and takes the cross-test lock); for `Record`, it is the path
    /// to record to, kept as it is. On success the whole state is replaced
    /// by a function of this call's arguments alone. A playback document
    /// that does not parse aborts the preparation with
    /// `InvalidMarkdownFormat` before anything is installed: the whole
    /// state, domain name included, is left exactly as it was.
    pub fn prepare_for_test(
        &mut self,
        mode: ServirtiumMode,
        script: &str,
        domain_name: &str,
    ) -> (r: Result<(), ServirtiumServerError>)
        ensures
            match mode {
                ServirtiumMode::Record => r is Ok,
                ServirtiumMode::Playback => r is Ok <==> spec_decode(script@) is Some,
            },
            r is Ok ==> final(self)@ == prepared_state(mode, script@, domain_name@),
            r is Err ==> (r matches Err(e) && e is InvalidMarkdownFormat)
                && final(self)@ == old(self)@,
    {
        match mode {
            ServirtiumMode::Playback => {
                match PlaybackData::decode(script) {
                    Ok(data) => {
                        self.interaction_mode = ServirtiumInteractionMode::Playback(data);
                        self.domain_name = Some(String::from_str(domain_name));
                        Ok(())
                    },
                    Err(e) => Err(e),
                }
            },
            ServirtiumMode::Record => {
                self.interaction_mode = ServirtiumInteractionMode::Recording(
                    String::from_str(script),
                );
                self.domain_name = Some(String::from_str(domain_name));
                Ok(())
            },
        }
    }

    /// Decide one accepted connection from the installed mode: playback
    /// replays the loaded fixture — the request's content is never
    /// consulted — recording hands back the path the capture should go to,
    /// and with no mode installed there is no response at all, so a caller
    /// that never prepared a test waits for an answer that does not come.
    pub fn handle_connection(&self) -> (r: ConnectionAction)
        ensures
            match self@.interaction_mode {
                InteractionMode::Playback(d) => r matches ConnectionAction::Reply(s) && s@
                    == spec_playback_response(d),
                InteractionMode::Recording(p) => r matches ConnectionAction::Record(path)
                    && path@ == p,
                InteractionMode::NotSet => r is NoResponse,
            },
    {
        match &self.interaction_mode {
            ServirtiumInteractionMode::Playback(data) => ConnectionAction::Reply(
                playback_response(data),
            ),
            ServirtiumInteractionMode::Recording(path) => ConnectionAction::Record(path.clone()),
            ServirtiumInteractionMode::NotSet => ConnectionAction::NoResponse,
        }
    }
}

impl Default for ServirtiumServer {
    /// The same state as [`ServirtiumServer::new`]: nothing installed.
    fn default() -> (s: Self)
        ensures
            s@.interaction_mode is NotSet,
            s@.domain_name is None,
    {
        ServirtiumServer::new()
    }
}

/// What the listener should do with one accepted connection.
#[derive(Debug)]
pub enum ConnectionAction {
    /// Write these bytes back, flush, and close.
    Reply(String),
    /// A capture was requested to this path; replaying cannot serve it.
    Record(String),
    /// Say nothing and move on to the next connection.
    NoResponse,
}

/// The state a successful preparation installs: built from that call's
/// mode, script and domain alone. That no earlier state appears here is the
/// cross-test guarantee — sequential tests cannot leak fixtures into each
/// other.
pub open spec fn prepared_state(
    mode: ServirtiumMode,
    script: Seq<char>,
    domain_name: Seq<char>,
) -> ServirtiumServerView {
    ServirtiumServerView {
        interaction_mode: match mode {
            ServirtiumMode::Playback => InteractionMode::Playback(spec_decode(script).unwrap()),
            ServirtiumMode::Record => InteractionMode::Recording(script),
        },
        domain_name: Some(domain_name),
    }
}

/// During a test only that test's own fixture is ever replayed: the state a
/// successful playback preparation leaves behind holds exactly the record
/// decoded from that call's document — `prepared_state` takes no earlier
/// state at all, so nothing an earlier test installed can reach the
/// connection handler once the preparation returns.
pub proof fn lemma_only_own_fixture_replayed(
    mode: ServirtiumMode,
    script: Seq<char>,
    domain_name: Seq<char>,
    d: PlaybackDataView,
)
    requires
        mode is Playback,
        spec_decode(script) == Some(d),
    ensures
        prepared_state(mode, script, domain_name) == (ServirtiumServerView {
            interaction_mode: InteractionMode::Playback(d),
            domain_name: Some(domain_name),
        }),
{
}

} // verus!
