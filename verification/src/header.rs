use vstd::prelude::*;

use crate::ip::{spec_to_ip_addresses, to_ip_addresses, IpAddress};
use crate::text::{
    chars_to_string, lower_chars, lower_seq, spec_trim, split_char, split_chars, str_to_chars,
    suffix_after_last, suffix_after_last_exec, trim_chars,
};

verus! {

/// The mathematical content of a parsed `Forwarded` header.
#[verifier::ext_equal]
pub struct HeaderView {
    pub for_entries: Seq<Seq<char>>,
    pub by: Option<Seq<char>>,
    pub host: Option<Seq<char>>,
    pub proto: Option<Seq<char>>,
}

/// Fields from a `Forwarded` header, RFC 7239 section 4: every `for` value in
/// header order, and the last `by`, `host` and `proto` values.
#[derive(Debug)]
pub struct ForwardedHeader {
    pub for_field: Vec<String>,
    pub by: Option<String>,
    pub host: Option<String>,
    pub proto: Option<String>,
}

impl View for ForwardedHeader {
    type V = HeaderView;

    open spec fn view(&self) -> HeaderView {
        HeaderView {
            for_entries: self.for_field.deep_view(),
            by: match self.by {
                Some(s) => Some(s@),
                None => None,
            },
            host: match self.host {
                Some(s) => Some(s@),
                None => None,
            },
            proto: match self.proto {
                Some(s) => Some(s@),
                None => None,
            },
        }
    }
}

/// A normalised segment that assigns to `for`: it opens with `for=`, or with
/// `for =` tolerating one stray space.
pub open spec fn seg_is_for(t: Seq<char>) -> bool {
    (t.len() >= 4 && t[0] == 'f' && t[1] == 'o' && t[2] == 'r' && t[3] == '=') || (t.len() >= 5
        && t[0] == 'f' && t[1] == 'o' && t[2] == 'r' && t[3] == ' ' && t[4] == '=')
}

pub open spec fn seg_is_by(t: Seq<char>) -> bool {
    t.len() >= 3 && t[0] == 'b' && t[1] == 'y' && t[2] == '='
}

pub open spec fn seg_is_host(t: Seq<char>) -> bool {
    t.len() >= 5 && t[0] == 'h' && t[1] == 'o' && t[2] == 's' && t[3] == 't' && t[4] == '='
}

pub open spec fn seg_is_proto(t: Seq<char>) -> bool {
    t.len() >= 6 && t[0] == 'p' && t[1] == 'r' && t[2] == 'o' && t[3] == 't' && t[4] == 'o'
        && t[5] == '='
}

/// The `for` values inside one segment: the segment may hold comma-separated
/// repeats, and each piece contributes what follows its last `=` after
/// trimming.
pub open spec fn spec_for_chunks(t: Seq<char>) -> Seq<Seq<char>> {
    split_char(t, ',').map_values(|c: Seq<char>| suffix_after_last(spec_trim(c), '='))
}

/// One semicolon-separated segment applied to the record built so far. The
/// segment is trimmed and lowercased whole before its key is matched; a
/// segment with no recognised key changes nothing.
pub open spec fn spec_apply_segment(h: HeaderView, seg: Seq<char>) -> HeaderView {
    let t = lower_seq(spec_trim(seg));
    if seg_is_for(t) {
        HeaderView { for_entries: h.for_entries + spec_for_chunks(t), by: h.by, host: h.host, proto: h.proto }
    } else if seg_is_by(t) {
        HeaderView { for_entries: h.for_entries, by: Some(suffix_after_last(t, '=')), host: h.host, proto: h.proto }
    } else if seg_is_host(t) {
        HeaderView { for_entries: h.for_entries, by: h.by, host: Some(suffix_after_last(t, '=')), proto: h.proto }
    } else if seg_is_proto(t) {
        HeaderView { for_entries: h.for_entries, by: h.by, host: h.host, proto: Some(suffix_after_last(t, '=')) }
    } else {
        h
    }
}

/// The record before any segment is applied.
pub open spec fn spec_empty_header() -> HeaderView {
    HeaderView { for_entries: Seq::empty(), by: None, host: None, proto: None }
}

pub open spec fn spec_fold_segments(h: HeaderView, segs: Seq<Seq<char>>) -> HeaderView
    decreases segs.len(),
{
    if segs.len() == 0 {
        h
    } else {
        spec_fold_segments(spec_apply_segment(h, segs[0]), segs.drop_first())
    }
}

/// What parsing a whole header value yields: the segments between semicolons,
/// applied in order to the empty record.
pub open spec fn spec_parse_header(s: Seq<char>) -> HeaderView {
    spec_fold_segments(spec_empty_header(), split_char(s, ';'))
}

fn apply_segment(h: &mut ForwardedHeader, seg: &Vec<char>)
    ensures
        final(h)@ == spec_apply_segment(old(h)@, seg@),
{
    let trimmed = trim_chars(seg);
    let t = lower_chars(&trimmed);
    let ghost tv = lower_seq(spec_trim(seg@));
    assert(t@ == tv);
    let n = t.len();
    let is_for = (n >= 4 && t[0] == 'f' && t[1] == 'o' && t[2] == 'r' && t[3] == '=') || (n >= 5
        && t[0] == 'f' && t[1] == 'o' && t[2] == 'r' && t[3] == ' ' && t[4] == '=');
    if is_for {
        let chunks = split_chars(&t, ',');
        let ghost oldentries = h.for_field.deep_view();
        let mut j: usize = 0;
        while j < chunks.len()
            invariant
                0 <= j <= chunks@.len(),
                chunks@.len() == split_char(tv, ',').len(),
                forall|k: int| 0 <= k < chunks@.len() ==> chunks@[k]@ == split_char(tv, ',')[k],
                h.for_field.deep_view() =~= oldentries + spec_for_chunks(tv).take(j as int),
                h.by == old(h).by,
                h.host == old(h).host,
                h.proto == old(h).proto,
            decreases chunks@.len() - j,
        {
            let ghost before = h.for_field.deep_view();
            let piece = trim_chars(&chunks[j]);
            let val = suffix_after_last_exec(&piece, '=');
            assert(val@ == spec_for_chunks(tv)[j as int]);
            h.for_field.push(chars_to_string(&val));
            proof {
                assert(h.for_field.deep_view() =~= before.push(val@));
                assert(spec_for_chunks(tv).take(j as int + 1) =~= spec_for_chunks(tv).take(
                    j as int,
                ).push(spec_for_chunks(tv)[j as int]));
            }
            j = j + 1;
        }
        proof {
            assert(spec_for_chunks(tv).take(chunks@.len() as int) =~= spec_for_chunks(tv));
            assert(h@ =~~= spec_apply_segment(old(h)@, seg@));
        }
    } else if n >= 3 && t[0] == 'b' && t[1] == 'y' && t[2] == '=' {
        let val = suffix_after_last_exec(&t, '=');
        h.by = Some(chars_to_string(&val));
        assert(h@ =~~= spec_apply_segment(old(h)@, seg@));
    } else if n >= 5 && t[0] == 'h' && t[1] == 'o' && t[2] == 's' && t[3] == 't' && t[4] == '=' {
        let val = suffix_after_last_exec(&t, '=');
        h.host = Some(chars_to_string(&val));
        assert(h@ =~~= spec_apply_segment(old(h)@, seg@));
    } else if n >= 6 && t[0] == 'p' && t[1] == 'r' && t[2] == 'o' && t[3] == 't' && t[4] == 'o'
        && t[5] == '=' {
        let val = suffix_after_last_exec(&t, '=');
        h.proto = Some(chars_to_string(&val));
        assert(h@ =~~= spec_apply_segment(old(h)@, seg@));
    } else {
        assert(h@ =~~= spec_apply_segment(old(h)@, seg@));
    }
}

/// Parses one `Forwarded` header value, already available as text. Parsing
/// never fails: unrecognised keys are ignored and malformed pieces are kept
/// as raw text.
pub fn parse_forwarded_header(raw: &str) -> (h: ForwardedHeader)
    ensures
        h@ == spec_parse_header(raw@),
{
    let chars = str_to_chars(raw);
    let segs = split_chars(&chars, ';');
    let ghost gsegs = split_char(raw@, ';');
    let mut h = ForwardedHeader { for_field: Vec::new(), by: None, host: None, proto: None };
    proof {
        assert(h@ =~~= spec_empty_header());
        assert(gsegs.skip(0) =~= gsegs);
    }
    let mut i: usize = 0;
    while i < segs.len()
        invariant
            0 <= i <= segs@.len(),
            segs@.len() == gsegs.len(),
            forall|j: int| 0 <= j < gsegs.len() ==> segs@[j]@ == gsegs[j],
            spec_fold_segments(h@, gsegs.skip(i as int)) == spec_parse_header(raw@),
        decreases segs@.len() - i,
    {
        let ghost oldh = h@;
        apply_segment(&mut h, &segs[i]);
        proof {
            let pre = gsegs.skip(i as int);
            assert(pre.drop_first() =~= gsegs.skip(i as int + 1));
            assert(pre[0] == gsegs[i as int]);
            assert(spec_fold_segments(oldh, pre) == spec_fold_segments(
                spec_apply_segment(oldh, pre[0]),
                pre.drop_first(),
            ));
        }
        i = i + 1;
    }
    proof {
        assert(gsegs.skip(gsegs.len() as int) =~= Seq::<Seq<char>>::empty());
    }
    h
}

#[verifier::external_type_specification]
#[verifier::external_body]
pub struct ExHeaderValue(axum::http::HeaderValue);

/// A character that a header value may yield as text: visible ASCII or tab.
pub open spec fn visible_ascii_char(c: char) -> bool {
    ||| c == '\t'
    ||| ((c as u32) >= 32 && (c as u32) < 127)
}

/// Characters that a header value yields as text: visible ASCII or tab.
pub open spec fn visible_ascii(s: Seq<char>) -> bool {
    forall|i: int| 0 <= i < s.len() ==> visible_ascii_char(#[trigger] s[i])
}

// The text a header value decodes to, or None when its bytes are not readable
// as text: a name for what `HeaderValue::to_str` returns, which depends on the
// value's bytes alone.
pub uninterp spec fn header_text(v: axum::http::HeaderValue) -> Option<Seq<char>>;

/// Relies on http's `HeaderValue::to_str`: it succeeds exactly when every byte
/// of the value is visible ASCII (32..127) or tab, and then yields those bytes
/// as the string's characters; the failure is rendered through its `Display`.
/// Its result is a function of the value's bytes alone, named `header_text`.
#[verifier::external_body]
fn header_value_to_str(value: &axum::http::HeaderValue) -> (r: Result<String, String>)
    ensures
        r matches Ok(s) ==> visible_ascii(s@) && header_text(*value) == Some(s@),
        r matches Err(_) ==> header_text(*value) is None,
{
    match value.to_str() {
        Ok(s) => Ok(s.to_owned()),
        Err(e) => Err(e.to_string()),
    }
}

impl ForwardedHeader {
    /// Parses a `Forwarded` header value as the HTTP layer holds it: the
    /// result is the parse of the value's text, and the only failure, if and
    /// only if the value is not readable as text, is the decoding error.
    pub fn try_from_header_value(value: &axum::http::HeaderValue) -> (r: Result<
        ForwardedHeader,
        String,
    >)
        ensures
            r matches Ok(h) ==> header_text(*value) matches Some(s) && visible_ascii(s) && h@
                == spec_parse_header(s),
            r matches Err(_) ==> header_text(*value) is None,
    {
        match header_value_to_str(value) {
            Ok(s) => {
                let h = parse_forwarded_header(s.as_str());
                Ok(h)
            },
            Err(e) => Err(e),
        }
    }

    /// The `for` entries as parsed addresses, in header order; entries that do
    /// not hold an address are dropped.
    pub fn for_as_ipaddr(self) -> (r: Vec<IpAddress>)
        ensures
            r@ == spec_to_ip_addresses(self@.for_entries),
    {
        to_ip_addresses(&self.for_field)
    }
}

} // verus!
