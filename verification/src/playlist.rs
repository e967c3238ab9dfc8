use vstd::prelude::*;

use crate::error::Error;
use crate::text::{
    dec_string, find_from, find_substr_from, match_at, push_char, remove_quotes, spec_dec,
    spec_lines, split_lines, str_eq, string_views, strip_quotes,
};

verus! {

// ---------------------------------------------------------------------------
// Variants
// ---------------------------------------------------------------------------

/// One playable encoding of the stream, as listed by the master playlist.
#[derive(Debug, PartialEq)]
pub struct Stream {
    /// Picture size, passed through verbatim (for example "1920x1080").
    pub resolution: String,
    /// Bandwidth as reported by the source, an opaque numeric string.
    pub bandwidth: String,
    /// The playable address.
    pub link: String,
    /// `None` marks the source ("chunked") variant; `Some(n)` is the
    /// numeric quality label.
    pub quality: Option<u32>,
    /// Display label: "best" for the source variant, "<n>p" otherwise.
    pub ty: String,
}

/// The mathematical image of a `Stream`.
pub ghost struct SpecStream {
    pub resolution: Seq<char>,
    pub bandwidth: Seq<char>,
    pub link: Seq<char>,
    pub quality: Option<u32>,
    pub ty: Seq<char>,
}

impl View for Stream {
    type V = SpecStream;

    open spec fn view(&self) -> SpecStream {
        SpecStream {
            resolution: self.resolution@,
            bandwidth: self.bandwidth@,
            link: self.link@,
            quality: self.quality,
            ty: self.ty@,
        }
    }
}

impl Clone for Stream {
    fn clone(&self) -> (r: Self)
        ensures
            r@ == self@,
    {
        Stream {
            resolution: self.resolution.clone(),
            bandwidth: self.bandwidth.clone(),
            link: self.link.clone(),
            quality: self.quality,
            ty: self.ty.clone(),
        }
    }
}

pub open spec fn stream_views(v: Seq<Stream>) -> Seq<SpecStream> {
    v.map_values(|x: Stream| x@)
}

// ---------------------------------------------------------------------------
// The line scanner's pending state
// ---------------------------------------------------------------------------

/// Attributes seen on the latest attribute line and not yet attached to a
/// URI line. An empty tag means no attribute line is pending.
pub ghost struct Pending {
    pub tag: Seq<char>,
    pub res: Seq<char>,
    pub bw: Seq<char>,
}

pub open spec fn init_pending() -> Pending {
    Pending { tag: Seq::empty(), res: Seq::empty(), bw: Seq::empty() }
}

pub open spec fn video_marker() -> Seq<char> {
    "VIDEO="@
}

pub open spec fn bandwidth_marker() -> Seq<char> {
    "BANDWIDTH="@
}

pub open spec fn resolution_marker() -> Seq<char> {
    "RESOLUTION="@
}

pub open spec fn chunked_tag() -> Seq<char> {
    "chunked"@
}

pub open spec fn best_label() -> Seq<char> {
    "best"@
}

/// The value of `marker` on `line`: the text after the first occurrence of
/// `marker`, up to the first comma at or after that occurrence. `None` when
/// the marker or the terminating comma is missing.
pub open spec fn attr_value(line: Seq<char>, marker: Seq<char>) -> Option<Seq<char>> {
    match find_from(line, marker, 0) {
        None => None,
        Some(p) => match find_from(line, seq![','], p + marker.len()) {
            None => None,
            Some(e) => Some(line.subrange(p + marker.len(), e)),
        },
    }
}

/// The quality tag of an attribute line: everything after the first
/// `VIDEO=`, with double quotes removed.
pub open spec fn video_tag(line: Seq<char>) -> Option<Seq<char>> {
    match find_from(line, video_marker(), 0) {
        None => None,
        Some(p) => Some(strip_quotes(line.subrange(p + video_marker().len(), line.len() as int))),
    }
}

// ---------------------------------------------------------------------------
// Quality tags
// ---------------------------------------------------------------------------

pub open spec fn is_digit(c: char) -> bool {
    '0' <= c && c <= '9'
}

pub open spec fn digit_val(c: char) -> int {
    c as u32 - 48
}

/// What `u32` parsing makes of the first three characters of a tag:
/// three digits, or a plus sign followed by two digits.
pub open spec fn parse3(tag: Seq<char>) -> Option<u32> {
    if tag.len() < 3 {
        None
    } else if is_digit(tag[0]) && is_digit(tag[1]) && is_digit(tag[2]) {
        Some((100 * digit_val(tag[0]) + 10 * digit_val(tag[1]) + digit_val(tag[2])) as u32)
    } else if tag[0] == '+' && is_digit(tag[1]) && is_digit(tag[2]) {
        Some((10 * digit_val(tag[1]) + digit_val(tag[2])) as u32)
    } else {
        None
    }
}

fn parse3_exec(tag: &str) -> (r: Option<u32>)
    ensures
        r == parse3(tag@),
{
    let n = tag.unicode_len();
    if n < 3 {
        return None;
    }
    let c0 = tag.get_char(0) as u32;
    let c1 = tag.get_char(1) as u32;
    let c2 = tag.get_char(2) as u32;
    let d1 = 48 <= c1 && c1 <= 57;
    let d2 = 48 <= c2 && c2 <= 57;
    if 48 <= c0 && c0 <= 57 && d1 && d2 {
        Some(100 * (c0 - 48) + 10 * (c1 - 48) + (c2 - 48))
    } else if c0 == 43 && d1 && d2 {
        proof {
            assert(tag@[0] == '+');
        }
        Some(10 * (c1 - 48) + (c2 - 48))
    } else {
        None
    }
}

// ---------------------------------------------------------------------------
// One step of the scanner
// ---------------------------------------------------------------------------

/// How a pending attribute set and one line combine: the new pending state
/// and the variant emitted, if any.
pub open spec fn uri_step(p: Pending, line: Seq<char>) -> (Pending, Option<SpecStream>) {
    if p.tag.len() == 0 || (line.len() > 0 && line[0] == '#') {
        (p, None)
    } else if p.tag == chunked_tag() {
        (
            init_pending(),
            Some(
                SpecStream {
                    resolution: p.res,
                    bandwidth: p.bw,
                    link: line,
                    quality: None,
                    ty: best_label(),
                },
            ),
        )
    } else {
        match parse3(p.tag) {
            Some(n) => (
                init_pending(),
                Some(
                    SpecStream {
                        resolution: p.res,
                        bandwidth: p.bw,
                        link: line,
                        quality: Some(n),
                        ty: spec_dec(n).push('p'),
                    },
                ),
            ),
            None => (Pending { tag: Seq::empty(), res: p.res, bw: p.bw }, None),
        }
    }
}

/// The pending attributes a line leaves in force before the URI decision:
/// an attribute line replaces them, any other line keeps them. `None`
/// stands for a structurally malformed attribute line: it carries `VIDEO=`
/// but `BANDWIDTH=` or `RESOLUTION=` has no comma-terminated value.
pub open spec fn effective_pending(p: Pending, line: Seq<char>) -> Option<Pending> {
    if find_from(line, video_marker(), 0) is Some {
        match (video_tag(line), attr_value(line, resolution_marker()), attr_value(
            line,
            bandwidth_marker(),
        )) {
            (Some(tag), Some(res), Some(bw)) => Some(Pending { tag, res, bw }),
            _ => None,
        }
    } else {
        Some(p)
    }
}

/// One line of the scan.
pub open spec fn scan_step(p: Pending, line: Seq<char>) -> Option<(Pending, Option<SpecStream>)> {
    match effective_pending(p, line) {
        None => None,
        Some(p1) => Some(uri_step(p1, line)),
    }
}

/// The unrecognized quality tag a line discards, if any: a pending tag that
/// is neither "chunked" nor numeric, on a line taken as a URI line.
pub open spec fn step_warning(p: Pending, line: Seq<char>) -> Option<Seq<char>> {
    match effective_pending(p, line) {
        None => None,
        Some(p1) => {
            if p1.tag.len() == 0 || (line.len() > 0 && line[0] == '#') {
                None
            } else if p1.tag == chunked_tag() {
                None
            } else if parse3(p1.tag) is Some {
                None
            } else {
                Some(p1.tag)
            }
        },
    }
}

pub open spec fn opt_view(em: Option<Stream>) -> Option<SpecStream> {
    match em {
        None => None,
        Some(v) => Some(v@),
    }
}

/// The variants emitted by scanning `lines` with pending state `p`;
/// `None` when some line is malformed.
pub open spec fn scan_lines(lines: Seq<Seq<char>>, p: Pending) -> Option<Seq<SpecStream>>
    decreases lines.len(),
{
    if lines.len() == 0 {
        Some(Seq::empty())
    } else {
        match scan_step(p, lines[0]) {
            None => None,
            Some((p2, em)) => match scan_lines(lines.drop_first(), p2) {
                None => None,
                Some(rest) => Some(
                    (match em {
                        None => Seq::empty(),
                        Some(e) => seq![e],
                    }) + rest,
                ),
            },
        }
    }
}

/// All variants emitted for a playlist document, in the order of emission,
/// duplicates included.
pub open spec fn spec_emitted(text: Seq<char>) -> Option<Seq<SpecStream>> {
    scan_lines(spec_lines(text), init_pending())
}

/// The unrecognized quality tags that scanning `lines` with pending state
/// `p` discards, in order, up to a malformed line if one cuts the scan off.
pub open spec fn scan_warnings(lines: Seq<Seq<char>>, p: Pending) -> Seq<Seq<char>>
    decreases lines.len(),
{
    if lines.len() == 0 {
        Seq::empty()
    } else {
        match scan_step(p, lines[0]) {
            None => Seq::empty(),
            Some((p2, _)) => (match step_warning(p, lines[0]) {
                None => Seq::<Seq<char>>::empty(),
                Some(w) => seq![w],
            }) + scan_warnings(lines.drop_first(), p2),
        }
    }
}

/// The unrecognized quality tags of a playlist document, in the order met.
pub open spec fn spec_warnings(text: Seq<char>) -> Seq<Seq<char>> {
    scan_warnings(spec_lines(text), init_pending())
}

// ---------------------------------------------------------------------------
// The executable scanner
// ---------------------------------------------------------------------------

struct Scan {
    tag: String,
    res: String,
    bw: String,
}

impl View for Scan {
    type V = Pending;

    closed spec fn view(&self) -> Pending {
        Pending { tag: self.tag@, res: self.res@, bw: self.bw@ }
    }
}

impl Scan {
    fn empty() -> (r: Self)
        ensures
            r@ == init_pending(),
    {
        Scan { tag: String::new(), res: String::new(), bw: String::new() }
    }
}

/// The value of `marker` on `line`, executable side.
fn attr_value_exec(line: &str, marker: &str) -> (r: Option<String>)
    ensures
        r is Some <==> attr_value(line@, marker@) is Some,
        r matches Some(v) ==> attr_value(line@, marker@) == Some(v@),
{
    let mlen = marker.unicode_len();
    let n = line.unicode_len();
    match find_substr_from(line, marker, 0) {
        None => None,
        Some(p) => {
            proof {
                crate::text::lemma_find_from_props(line@, marker@, 0);
                assert(match_at(line@, marker@, p as int));
                assert(p + mlen <= n);
                reveal_strlit(",");
                assert(","@ =~= seq![',']);
            }
            match find_substr_from(line, ",", p + mlen) {
                None => None,
                Some(e) => {
                    proof {
                        crate::text::lemma_find_from_props(line@, ","@, p + mlen);
                    }
                    Some(line.substring_char(p + mlen, e).to_owned())
                },
            }
        },
    }
}

pub open spec fn opt_str_view(w: Option<String>) -> Option<Seq<char>> {
    match w {
        None => None,
        Some(s) => Some(s@),
    }
}

/// One line of the scan, executable side; the third component is the
/// unrecognized tag the line discarded, if any.
fn step_line(st: Scan, line: &str) -> (r: Result<(Scan, Option<Stream>, Option<String>), Error>)
    ensures
        r is Err <==> scan_step(st@, line@) is None,
        r matches Err(e) ==> e is InvalidPlaylist,
        r matches Ok((s2, em, w)) ==> scan_step(st@, line@) == Some((s2@, opt_view(em)))
            && opt_str_view(w) == step_warning(st@, line@),
{
    let st1: Scan = match find_substr_from(line, "VIDEO=", 0) {
        Some(p) => {
            proof {
                crate::text::lemma_find_from_props(line@, "VIDEO="@, 0);
                assert(match_at(line@, video_marker(), p as int));
                reveal_strlit("VIDEO=");
                assert(video_marker().len() == 6);
            }
            let n = line.unicode_len();
            let raw = line.substring_char(p + 6, n);
            let tag = remove_quotes(raw);
            let res = match attr_value_exec(line, "RESOLUTION=") {
                Some(v) => v,
                None => {
                    return Err(Error::InvalidPlaylist);
                },
            };
            let bw = match attr_value_exec(line, "BANDWIDTH=") {
                Some(v) => v,
                None => {
                    return Err(Error::InvalidPlaylist);
                },
            };
            proof {
                assert(video_tag(line@) == Some(tag@));
            }
            Scan { tag, res, bw }
        },
        None => st,
    };
    // From here on the step can no longer fail: classify the pending tag.
    proof {
        assert(effective_pending(st@, line@) == Some(st1@));
    }
    let Scan { tag, res, bw } = st1;
    let is_comment = line.unicode_len() > 0 && line.get_char(0) == '#';
    if tag.as_str().unicode_len() == 0 || is_comment {
        return Ok((Scan { tag, res, bw }, None, None));
    }
    if str_eq(tag.as_str(), "chunked") {
        proof {
            assert(tag@ == chunked_tag());
        }
        let s = Stream {
            resolution: res,
            bandwidth: bw,
            link: line.to_owned(),
            quality: None,
            ty: "best".to_owned(),
        };
        proof {
            assert(s@.ty == best_label());
        }
        return Ok((Scan::empty(), Some(s), None));
    }
    match parse3_exec(tag.as_str()) {
        Some(nq) => {
            let mut ty = dec_string(nq);
            push_char(&mut ty, 'p');
            let s = Stream {
                resolution: res,
                bandwidth: bw,
                link: line.to_owned(),
                quality: Some(nq),
                ty,
            };
            Ok((Scan::empty(), Some(s), None))
        },
        None => Ok((Scan { tag: String::new(), res, bw }, None, Some(tag))),
    }
}

/// Scans the lines of a playlist, emitting variants in order, together
/// with the unrecognized quality tags that were discarded.
fn scan_playlist(lines: &Vec<String>) -> (r: Result<(Vec<Stream>, Vec<String>), Error>)
    ensures
        r is Err <==> scan_lines(string_views(lines@), init_pending()) is None,
        r matches Err(e) ==> e is InvalidPlaylist,
        r matches Ok((v, w)) ==> scan_lines(string_views(lines@), init_pending()) == Some(
            stream_views(v@),
        ) && string_views(w@) == scan_warnings(string_views(lines@), init_pending()),
{
    let ghost all = string_views(lines@);
    let mut st = Scan::empty();
    let mut out: Vec<Stream> = Vec::new();
    let mut warns: Vec<String> = Vec::new();
    let mut i: usize = 0;
    proof {
        assert(all.skip(0) =~= all);
        assert(stream_views(out@) =~= Seq::<SpecStream>::empty());
        assert(string_views(warns@) =~= Seq::<Seq<char>>::empty());
        if scan_lines(all, init_pending()) is Some {
            let whole = scan_lines(all, init_pending())->0;
            assert(stream_views(out@) + whole =~= whole);
        }
        assert(string_views(warns@) + scan_warnings(all, init_pending()) =~= scan_warnings(
            all,
            init_pending(),
        ));
    }
    while i < lines.len()
        invariant
            0 <= i <= lines@.len(),
            all == string_views(lines@),
            scan_lines(all, init_pending()) == (match scan_lines(all.skip(i as int), st@) {
                None => None::<Seq<SpecStream>>,
                Some(rest) => Some(stream_views(out@) + rest),
            }),
            scan_warnings(all, init_pending()) == string_views(warns@) + scan_warnings(
                all.skip(i as int),
                st@,
            ),
        decreases lines@.len() - i,
    {
        let line: &String = &lines[i];
        proof {
            assert(all.skip(i as int).len() > 0);
            assert(all.skip(i as int)[0] == line@);
            assert(all.skip(i as int).drop_first() =~= all.skip(i + 1));
        }
        match step_line(st, line.as_str()) {
            Err(e) => {
                return Err(e);
            },
            Ok((st2, em, warning)) => {
                st = st2;
                match em {
                    Some(s) => {
                        proof {
                            let tail = scan_lines(all.skip(i + 1), st@);
                            if tail is Some {
                                let rest = tail->0;
                                assert(stream_views(out@.push(s)) =~= stream_views(out@).push(s@));
                                assert(stream_views(out@) + (seq![s@] + rest) =~= stream_views(
                                    out@,
                                ).push(s@) + rest);
                            }
                        }
                        out.push(s);
                    },
                    None => {
                        proof {
                            let tail = scan_lines(all.skip(i + 1), st@);
                            if tail is Some {
                                let rest = tail->0;
                                assert(Seq::<SpecStream>::empty() + rest =~= rest);
                            }
                        }
                    },
                }
                match warning {
                    Some(w) => {
                        proof {
                            let wtail = scan_warnings(all.skip(i + 1), st@);
                            assert(string_views(warns@.push(w)) =~= string_views(warns@).push(w@));
                            assert(string_views(warns@) + (seq![w@] + wtail) =~= string_views(
                                warns@,
                            ).push(w@) + wtail);
                        }
                        warns.push(w);
                    },
                    None => {
                        proof {
                            let wtail = scan_warnings(all.skip(i + 1), st@);
                            assert(Seq::<Seq<char>>::empty() + wtail =~= wtail);
                        }
                    },
                }
            },
        }
        i += 1;
    }
    proof {
        assert(all.skip(lines@.len() as int) =~= Seq::<Seq<char>>::empty());
        assert(stream_views(out@) + Seq::<SpecStream>::empty() =~= stream_views(out@));
        assert(string_views(warns@) + Seq::<Seq<char>>::empty() =~= string_views(warns@));
    }
    Ok((out, warns))
}

// ---------------------------------------------------------------------------
// Parsing a whole playlist
// ---------------------------------------------------------------------------

/// Parses a master playlist document into its variants, and also returns
/// the unrecognized quality tags that were skipped, in the order met, so
/// that a caller can report each one.
pub fn parse_with_warnings(playlist: &str) -> (r: Result<(Vec<Stream>, Vec<String>), Error>)
    ensures
        r is Err <==> spec_emitted(playlist@) is None,
        r matches Err(e) ==> e is InvalidPlaylist,
        r matches Ok((v, w)) ==> spec_emitted(playlist@) matches Some(es) && stream_views(v@)
            == crate::resolve::spec_dedup(es) && string_views(w@) == spec_warnings(playlist@),
{
    let lines = split_lines(playlist);
    match scan_playlist(&lines) {
        Err(e) => Err(e),
        Ok((emitted, warnings)) => Ok((crate::resolve::dedup_streams(emitted), warnings)),
    }
}

/// Parses a master playlist document into its variants: one `Stream` per
/// distinct quality key, a later attribute/URI pair under a key replacing
/// an earlier one, ordered best-first. Fails with `InvalidPlaylist` exactly
/// when some line carries `VIDEO=` but no comma-terminated `BANDWIDTH=` or
/// `RESOLUTION=` value.
pub fn parse(playlist: &str) -> (r: Result<Vec<Stream>, Error>)
    ensures
        r is Err <==> spec_emitted(playlist@) is None,
        r matches Err(e) ==> e is InvalidPlaylist,
        r matches Ok(v) ==> spec_emitted(playlist@) matches Some(es) && stream_views(v@)
            == crate::resolve::spec_dedup(es),
{
    match parse_with_warnings(playlist) {
        Err(e) => Err(e),
        Ok((streams, _)) => Ok(streams),
    }
}

} // verus!
