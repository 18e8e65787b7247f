//! The exact bytes playback puts on the wire for a loaded fixture: always a
//! `200 OK` status line, then the recorded headers — minus any chunked
//! transfer-coding pair, which canned replay must not advertise — a blank
//! line, and the recorded body, verbatim.

use crate::playback::{PlaybackData, PlaybackDataView};
use vstd::prelude::*;
use vstd::string::*;

verus! {

/// The one header pair playback refuses to replay: chunked transfer coding
/// announces framing that a canned, already-complete body does not carry,
/// and clients that trust it stall or fail.
pub open spec fn is_chunked_pair(h: (Seq<char>, Seq<char>)) -> bool {
    h.0 == "Transfer-Encoding"@ && h.1 == "chunked"@
}

/// The pairs playback keeps: every recorded header except the chunked
/// transfer-coding pair, order and duplicates preserved.
pub open spec fn kept_headers(hs: Seq<(Seq<char>, Seq<char>)>) -> Seq<(Seq<char>, Seq<char>)>
    decreases hs.len(),
{
    if hs.len() == 0 {
        Seq::empty()
    } else if is_chunked_pair(hs[0]) {
        kept_headers(hs.drop_first())
    } else {
        seq![hs[0]] + kept_headers(hs.drop_first())
    }
}

/// The `Name: Value` lines, each closed by a carriage return and line feed,
/// that a run of header pairs prints as.
pub open spec fn header_block(hs: Seq<(Seq<char>, Seq<char>)>) -> Seq<char>
    decreases hs.len(),
{
    if hs.len() == 0 {
        Seq::empty()
    } else {
        hs[0].0 + ": "@ + hs[0].1 + "\r\n"@ + header_block(hs.drop_first())
    }
}

/// The exact response for a fixture: with no recorded headers, the status
/// line and a blank line straight before the body; otherwise the status
/// line, the kept headers and the blank line, then the body.
pub open spec fn spec_playback_response(d: PlaybackDataView) -> Seq<char> {
    if d.headers.len() == 0 {
        "HTTP/1.1 200 OK\r\n\r\n"@ + d.response_body
    } else {
        "HTTP/1.1 200 OK\r\n"@ + header_block(kept_headers(d.headers)) + "\r\n"@
            + d.response_body
    }
}

/// `kept_headers` distributes over concatenation.
proof fn lemma_kept_headers_add(a: Seq<(Seq<char>, Seq<char>)>, b: Seq<(Seq<char>, Seq<char>)>)
    ensures
        kept_headers(a + b) == kept_headers(a) + kept_headers(b),
    decreases a.len(),
{
    if a.len() == 0 {
        assert(a + b =~= b);
        assert(kept_headers(a + b) =~= kept_headers(a) + kept_headers(b));
    } else {
        lemma_kept_headers_add(a.drop_first(), b);
        assert((a + b).drop_first() =~= a.drop_first() + b);
        assert(kept_headers(a + b) =~= kept_headers(a) + kept_headers(b));
    }
}

/// `header_block` distributes over concatenation.
proof fn lemma_header_block_add(a: Seq<(Seq<char>, Seq<char>)>, b: Seq<(Seq<char>, Seq<char>)>)
    ensures
        header_block(a + b) == header_block(a) + header_block(b),
    decreases a.len(),
{
    if a.len() == 0 {
        assert(a + b =~= b);
        assert(header_block(a + b) =~= header_block(a) + header_block(b));
    } else {
        lemma_header_block_add(a.drop_first(), b);
        assert((a + b).drop_first() =~= a.drop_first() + b);
        assert(header_block(a + b) =~= header_block(a) + header_block(b));
    }
}

/// Whatever headers a fixture holds, the chunked transfer-coding pair is
/// never among the pairs the response emits.
pub proof fn lemma_chunked_pair_never_kept(hs: Seq<(Seq<char>, Seq<char>)>)
    ensures
        forall|i: int|
            0 <= i < kept_headers(hs).len() ==> !is_chunked_pair(#[trigger] kept_headers(hs)[i]),
    decreases hs.len(),
{
    if hs.len() > 0 {
        lemma_chunked_pair_never_kept(hs.drop_first());
        let rest = kept_headers(hs.drop_first());
        if !is_chunked_pair(hs[0]) {
            assert(kept_headers(hs) == seq![hs[0]] + rest);
            assert(forall|i: int|
                1 <= i < kept_headers(hs).len() ==> #[trigger] kept_headers(hs)[i] == rest[i - 1]);
        }
    }
}

/// Print the response for one fixture, byte for byte as the contract
/// states it.
pub fn playback_response(data: &PlaybackData) -> (r: String)
    ensures
        r@ == spec_playback_response(data@),
{
    if data.headers.len() == 0 {
        let mut out = String::from_str("HTTP/1.1 200 OK\r\n\r\n");
        out.append(data.response_body.as_str());
        proof {
            assert(data.headers.deep_view().len() == 0);
        }
        out
    } else {
        let ghost dh = data.headers.deep_view();
        let mut out = String::from_str("HTTP/1.1 200 OK\r\n");
        let mut i: usize = 0;
        proof {
            assert(dh.take(0) =~= Seq::<(Seq<char>, Seq<char>)>::empty());
            assert(kept_headers(dh.take(0)) == Seq::<(Seq<char>, Seq<char>)>::empty());
            assert(header_block(Seq::<(Seq<char>, Seq<char>)>::empty()) == Seq::<char>::empty());
            assert(out@ =~= "HTTP/1.1 200 OK\r\n"@ + header_block(kept_headers(dh.take(0))));
        }
        while i < data.headers.len()
            invariant
                0 <= i <= data.headers@.len(),
                dh == data.headers.deep_view(),
                out@ == "HTTP/1.1 200 OK\r\n"@ + header_block(kept_headers(dh.take(i as int))),
            decreases data.headers@.len() - i,
        {
            let pair = &data.headers[i];
            let chunked = str_is_transfer_encoding(pair.0.as_str()) && str_is_chunked(
                pair.1.as_str(),
            );
            let ghost h = dh[i as int];
            proof {
                assert(h == (pair.0@, pair.1@));
                assert(chunked == is_chunked_pair(h));
                assert(dh.take(i + 1) =~= dh.take(i as int) + seq![h]);
                lemma_kept_headers_add(dh.take(i as int), seq![h]);
                assert(seq![h].drop_first() =~= Seq::<(Seq<char>, Seq<char>)>::empty());
                assert(kept_headers(Seq::<(Seq<char>, Seq<char>)>::empty()) == Seq::<(
                    Seq<char>,
                    Seq<char>,
                )>::empty());
                assert(header_block(Seq::<(Seq<char>, Seq<char>)>::empty())
                    == Seq::<char>::empty());
            }
            if !chunked {
                out.append(pair.0.as_str());
                out.append(": ");
                out.append(pair.1.as_str());
                out.append("\r\n");
                proof {
                    assert(kept_headers(seq![h]) =~= seq![h]);
                    lemma_header_block_add(kept_headers(dh.take(i as int)), seq![h]);
                    assert(header_block(seq![h]) =~= h.0 + ": "@ + h.1 + "\r\n"@);
                    assert(out@ =~= "HTTP/1.1 200 OK\r\n"@ + header_block(
                        kept_headers(dh.take(i + 1)),
                    ));
                }
            } else {
                proof {
                    assert(kept_headers(seq![h]) =~= Seq::<(Seq<char>, Seq<char>)>::empty());
                    assert(kept_headers(dh.take(i + 1)) =~= kept_headers(dh.take(i as int)));
                }
            }
            i = i + 1;
        }
        proof {
            assert(dh.take(data.headers@.len() as int) =~= dh);
        }
        out.append("\r\n");
        out.append(data.response_body.as_str());
        out
    }
}

/// Whether `s` is exactly the transfer-coding header name.
fn str_is_transfer_encoding(s: &str) -> (r: bool)
    ensures
        r == (s@ == "Transfer-Encoding"@),
{
    crate::text::str_eq(s, "Transfer-Encoding")
}

/// Whether `s` is exactly the chunked coding token.
fn str_is_chunked(s: &str) -> (r: bool)
    ensures
        r == (s@ == "chunked"@),
{
    crate::text::str_eq(s, "chunked")
}

} // verus!
