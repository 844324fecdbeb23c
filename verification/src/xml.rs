//! Path-scoped streaming XML attribute engine.
//!
//! A document is a sequence of characters. One forward pass splits it into
//! events (start tags, end tags, self-closing tags, and everything else:
//! text, comments, declarations). A path-match cursor walks the events:
//! while the most recently opened element matches the path so far, opening
//! a deeper element that equals the next path segment advances the cursor,
//! and closing an element retreats it (saturating at zero). An element is
//! matched when the cursor sits on the last path segment and the element
//! carries that segment's name. `xml_find_value` collects the values of a
//! given attribute on matched elements; `xml_exchange_value` removes that
//! attribute from each matched element and appends it afresh with a new
//! value, re-emitting every other event unchanged, character for character.
use vstd::prelude::*;

use crate::RepackError;
use crate::text::{
    copy_range, find_char, find_non_ws, find_sub, is_ws, lemma_find_char, lemma_find_non_ws,
    lemma_find_non_ws_determined, lemma_find_sub, lemma_matches_at_iff, matches_at, scan_char,
    scan_non_ws, scan_sub, ws_char,
};

verus! {

/// Mathematical model of one event of the stream.
pub enum Ev {
    /// An opening tag with its name and its attribute list, in order.
    Start { name: Seq<char>, attrs: Seq<(Seq<char>, Seq<char>)>, raw: Seq<char> },
    /// A closing tag.
    End { raw: Seq<char> },
    /// A self-closing tag; it neither opens nor closes a scope.
    Empty { raw: Seq<char> },
    /// Text, a comment, a declaration: anything passed through untouched.
    Other { raw: Seq<char> },
}

/// The exact characters an event stands for in the document.
pub open spec fn ev_raw(e: Ev) -> Seq<char> {
    match e {
        Ev::Start { raw, .. } => raw,
        Ev::End { raw } => raw,
        Ev::Empty { raw } => raw,
        Ev::Other { raw } => raw,
    }
}

/// The element name of a start tag (empty for other events).
pub open spec fn ev_name(e: Ev) -> Seq<char> {
    match e {
        Ev::Start { name, .. } => name,
        _ => Seq::empty(),
    }
}

/// The attribute list of a start tag (empty for other events).
pub open spec fn ev_attrs(e: Ev) -> Seq<(Seq<char>, Seq<char>)> {
    match e {
        Ev::Start { attrs, .. } => attrs,
        _ => Seq::empty(),
    }
}

/// One attribute of a start tag.
pub struct XmlAttr {
    pub key: Vec<char>,
    pub value: Vec<char>,
}

impl View for XmlAttr {
    type V = (Seq<char>, Seq<char>);

    open spec fn view(&self) -> (Seq<char>, Seq<char>) {
        (self.key@, self.value@)
    }
}

/// The attribute views of a list of attributes.
pub open spec fn attrs_view(attrs: Seq<XmlAttr>) -> Seq<(Seq<char>, Seq<char>)> {
    attrs.map_values(|a: XmlAttr| a@)
}

/// One event of the stream, as executable data.
pub enum XmlEvent {
    Start { name: Vec<char>, attrs: Vec<XmlAttr>, raw: Vec<char> },
    End { raw: Vec<char> },
    Empty { raw: Vec<char> },
    Other { raw: Vec<char> },
}

impl View for XmlEvent {
    type V = Ev;

    open spec fn view(&self) -> Ev {
        match self {
            XmlEvent::Start { name, attrs, raw } => Ev::Start {
                name: name@,
                attrs: attrs_view(attrs@),
                raw: raw@,
            },
            XmlEvent::End { raw } => Ev::End { raw: raw@ },
            XmlEvent::Empty { raw } => Ev::Empty { raw: raw@ },
            XmlEvent::Other { raw } => Ev::Other { raw: raw@ },
        }
    }
}

/// The event views of a list of events.
pub open spec fn events_view(evts: Seq<XmlEvent>) -> Seq<Ev> {
    evts.map_values(|e: XmlEvent| e@)
}

/// `<!--`, which opens a comment.
pub open spec fn comment_open() -> Seq<char> {
    seq!['<', '!', '-', '-']
}

/// `-->`, which closes a comment.
pub open spec fn comment_close() -> Seq<char> {
    seq!['-', '-', '>']
}

/// A character that ends an element name.
pub open spec fn is_name_stop(c: char) -> bool {
    is_ws(c) || c == '>' || c == '/'
}

/// A character that ends an attribute key.
pub open spec fn is_attr_stop(c: char) -> bool {
    is_ws(c) || c == '=' || c == '>' || c == '/'
}

/// Index of the first name-stopping character at or after `i`, or -1.
pub open spec fn find_name_stop(s: Seq<char>, i: int) -> int
    decreases s.len() - i when 0 <= i <= s.len()
{
    if i >= s.len() {
        -1
    } else if is_name_stop(s[i]) {
        i
    } else {
        find_name_stop(s, i + 1)
    }
}

pub proof fn lemma_find_name_stop(s: Seq<char>, i: int)
    requires
        0 <= i <= s.len(),
    ensures
        find_name_stop(s, i) == -1 ==> forall|j: int| i <= j < s.len() ==> !is_name_stop(s[j]),
        find_name_stop(s, i) != -1 ==> i <= find_name_stop(s, i) < s.len() && is_name_stop(
            s[find_name_stop(s, i)],
        ) && forall|j: int| i <= j < find_name_stop(s, i) ==> !is_name_stop(s[j]),
    decreases s.len() - i,
{
    if i < s.len() && !is_name_stop(s[i]) {
        lemma_find_name_stop(s, i + 1);
    }
}

/// Index of the first key-stopping character at or after `i`, or -1.
pub open spec fn find_attr_stop(s: Seq<char>, i: int) -> int
    decreases s.len() - i when 0 <= i <= s.len()
{
    if i >= s.len() {
        -1
    } else if is_attr_stop(s[i]) {
        i
    } else {
        find_attr_stop(s, i + 1)
    }
}

pub proof fn lemma_find_attr_stop(s: Seq<char>, i: int)
    requires
        0 <= i <= s.len(),
    ensures
        find_attr_stop(s, i) == -1 ==> forall|j: int| i <= j < s.len() ==> !is_attr_stop(s[j]),
        find_attr_stop(s, i) != -1 ==> i <= find_attr_stop(s, i) < s.len() && is_attr_stop(
            s[find_attr_stop(s, i)],
        ) && forall|j: int| i <= j < find_attr_stop(s, i) ==> !is_attr_stop(s[j]),
    decreases s.len() - i,
{
    if i < s.len() && !is_attr_stop(s[i]) {
        lemma_find_attr_stop(s, i + 1);
    }
}

/// Outcome of scanning the attribute list of a tag.
pub enum AttrsOut {
    /// The attributes in order, the index just past the closing `>`, and
    /// whether the tag closed itself with `/>`.
    AttrsDone { attrs: Seq<(Seq<char>, Seq<char>)>, end: int, empty_tag: bool },
    /// Scanning failed at the given offset.
    AttrsFail { at: int },
}

/// Scans `key="value"` pairs from `i` up to the closing `>` or `/>`.
pub open spec fn parse_attrs(s: Seq<char>, i: int) -> AttrsOut
    decreases s.len() - i when 0 <= i <= s.len()
{
    let k = find_non_ws(s, i);
    if k == -1 {
        AttrsOut::AttrsFail { at: s.len() as int }
    } else if s[k] == '>' {
        AttrsOut::AttrsDone { attrs: Seq::empty(), end: k + 1, empty_tag: false }
    } else if s[k] == '/' {
        if k + 1 < s.len() && s[k + 1] == '>' {
            AttrsOut::AttrsDone { attrs: Seq::empty(), end: k + 2, empty_tag: true }
        } else {
            AttrsOut::AttrsFail { at: k + 1 }
        }
    } else {
        let j = find_attr_stop(s, k);
        if j == -1 {
            AttrsOut::AttrsFail { at: s.len() as int }
        } else if j == k {
            AttrsOut::AttrsFail { at: k }
        } else {
            let key = s.subrange(k, j);
            let m = find_non_ws(s, j);
            if m == -1 {
                AttrsOut::AttrsFail { at: s.len() as int }
            } else if s[m] != '=' {
                AttrsOut::AttrsFail { at: m }
            } else {
                let q = find_non_ws(s, m + 1);
                if q == -1 {
                    AttrsOut::AttrsFail { at: s.len() as int }
                } else if s[q] != '"' && s[q] != '\'' {
                    AttrsOut::AttrsFail { at: q }
                } else {
                    let p = find_char(s, q + 1, s[q]);
                    if p == -1 {
                        AttrsOut::AttrsFail { at: s.len() as int }
                    } else if !(i < p + 1 <= s.len()) {
                        AttrsOut::AttrsFail { at: p }
                    } else {
                        let value = s.subrange(q + 1, p);
                        match parse_attrs(s, p + 1) {
                            AttrsOut::AttrsDone { attrs, end, empty_tag } => AttrsOut::AttrsDone {
                                attrs: seq![(key, value)] + attrs,
                                end,
                                empty_tag,
                            },
                            f => f,
                        }
                    }
                }
            }
        }
    }
}

/// One step of the event scan.
pub enum Step {
    /// The next event and the index just past it.
    Next { e: Ev, at: int },
    /// The scan failed at the given offset.
    Bad { at: int },
    /// The end of the document.
    AtEnd,
}

/// Scans the single event that starts at `i`.
pub open spec fn next_event(s: Seq<char>, i: int) -> Step {
    if i >= s.len() {
        Step::AtEnd
    } else if s[i] != '<' {
        let j = find_char(s, i, '<');
        if j == -1 {
            Step::Next { e: Ev::Other { raw: s.subrange(i, s.len() as int) }, at: s.len() as int }
        } else {
            Step::Next { e: Ev::Other { raw: s.subrange(i, j) }, at: j }
        }
    } else if matches_at(s, i, comment_open()) {
        let p = find_sub(s, i + 4, comment_close());
        if p == -1 {
            Step::Bad { at: s.len() as int }
        } else {
            Step::Next { e: Ev::Other { raw: s.subrange(i, p + 3) }, at: p + 3 }
        }
    } else if i + 1 < s.len() && (s[i + 1] == '!' || s[i + 1] == '?') {
        let p = find_char(s, i + 1, '>');
        if p == -1 {
            Step::Bad { at: s.len() as int }
        } else {
            Step::Next { e: Ev::Other { raw: s.subrange(i, p + 1) }, at: p + 1 }
        }
    } else if i + 1 < s.len() && s[i + 1] == '/' {
        let p = find_char(s, i + 1, '>');
        if p == -1 {
            Step::Bad { at: s.len() as int }
        } else {
            Step::Next { e: Ev::End { raw: s.subrange(i, p + 1) }, at: p + 1 }
        }
    } else {
        let j = find_name_stop(s, i + 1);
        if j == -1 {
            Step::Bad { at: s.len() as int }
        } else if j == i + 1 {
            Step::Bad { at: i + 1 }
        } else {
            let name = s.subrange(i + 1, j);
            match parse_attrs(s, j) {
                AttrsOut::AttrsDone { attrs, end, empty_tag } => {
                    let raw = s.subrange(i, end);
                    if empty_tag {
                        Step::Next { e: Ev::Empty { raw }, at: end }
                    } else {
                        Step::Next { e: Ev::Start { name, attrs, raw }, at: end }
                    }
                },
                AttrsOut::AttrsFail { at } => Step::Bad { at },
            }
        }
    }
}

/// Outcome of scanning a whole document.
pub enum TokOut {
    /// Every event of the document, in order.
    Toks { evts: Seq<Ev> },
    /// Scanning failed at the given offset.
    TokErr { at: int },
}

/// Scans all events from `i` to the end of the document.
pub open spec fn toks_from(s: Seq<char>, i: int) -> TokOut
    decreases s.len() - i when 0 <= i <= s.len()
{
    match next_event(s, i) {
        Step::AtEnd => TokOut::Toks { evts: Seq::empty() },
        Step::Bad { at } => TokOut::TokErr { at },
        Step::Next { e, at } => {
            if i < at <= s.len() {
                match toks_from(s, at) {
                    TokOut::Toks { evts } => TokOut::Toks { evts: seq![e] + evts },
                    f => f,
                }
            } else {
                TokOut::TokErr { at: i }
            }
        },
    }
}

/// Whether the document scans without error.
pub open spec fn doc_ok(s: Seq<char>) -> bool {
    toks_from(s, 0) is Toks
}

/// The events of a well-formed document.
pub open spec fn doc_events(s: Seq<char>) -> Seq<Ev> {
    match toks_from(s, 0) {
        TokOut::Toks { evts } => evts,
        TokOut::TokErr { at } => Seq::empty(),
    }
}

/// The offset at which a malformed document fails to scan.
pub open spec fn doc_fail_at(s: Seq<char>) -> int {
    match toks_from(s, 0) {
        TokOut::Toks { evts } => -1,
        TokOut::TokErr { at } => at,
    }
}

/// Attribute scanning lands strictly forward and inside the document.
pub proof fn lemma_parse_attrs_bounds(s: Seq<char>, i: int)
    requires
        0 <= i <= s.len(),
    ensures
        match parse_attrs(s, i) {
            AttrsOut::AttrsDone { end, .. } => i < end <= s.len(),
            AttrsOut::AttrsFail { at } => 0 <= at <= s.len(),
        },
    decreases s.len() - i,
{
    lemma_find_non_ws(s, i);
    let k = find_non_ws(s, i);
    if k != -1 && s[k] != '>' && !(s[k] == '/') {
        lemma_find_attr_stop(s, k);
        let j = find_attr_stop(s, k);
        if j != -1 && j != k {
            lemma_find_non_ws(s, j);
            let m = find_non_ws(s, j);
            if m != -1 && s[m] == '=' {
                lemma_find_non_ws(s, m + 1);
                let q = find_non_ws(s, m + 1);
                if q != -1 && (s[q] == '"' || s[q] == '\'') {
                    lemma_find_char(s, q + 1, s[q]);
                    let p = find_char(s, q + 1, s[q]);
                    if p != -1 && i < p + 1 <= s.len() {
                        lemma_parse_attrs_bounds(s, p + 1);
                    }
                }
            }
        }
    }
}

/// Each scanned event covers exactly the characters between its start and
/// the next scan position.
pub proof fn lemma_next_event_bounds(s: Seq<char>, i: int)
    requires
        0 <= i <= s.len(),
    ensures
        match next_event(s, i) {
            Step::Next { e, at } => i < at <= s.len() && ev_raw(e) == s.subrange(i, at),
            Step::Bad { at } => 0 <= at <= s.len(),
            Step::AtEnd => i >= s.len(),
        },
{
    if i < s.len() {
        if s[i] != '<' {
            lemma_find_char(s, i, '<');
        } else if matches_at(s, i, comment_open()) {
            lemma_find_sub(s, i + 4, comment_close());
        } else if i + 1 < s.len() && (s[i + 1] == '!' || s[i + 1] == '?') {
            lemma_find_char(s, i + 1, '>');
        } else if i + 1 < s.len() && s[i + 1] == '/' {
            lemma_find_char(s, i + 1, '>');
        } else {
            lemma_find_name_stop(s, i + 1);
            let j = find_name_stop(s, i + 1);
            if j != -1 && j != i + 1 {
                lemma_parse_attrs_bounds(s, j);
            }
        }
    }
}

/// Exec search for the next name-stopping character.
fn scan_name_stop(s: &Vec<char>, from: usize) -> (r: Option<usize>)
    requires
        from <= s@.len(),
    ensures
        ({
            let f = find_name_stop(s@, from as int);
            match r {
                Some(j) => f == j && from <= j < s@.len(),
                None => f == -1,
            }
        }),
{
    let mut i: usize = from;
    while i < s.len()
        invariant
            from <= i <= s@.len(),
            find_name_stop(s@, from as int) == find_name_stop(s@, i as int),
        decreases s@.len() - i,
    {
        if ws_char(s[i]) || s[i] == '>' || s[i] == '/' {
            return Some(i);
        }
        i = i + 1;
    }
    None
}

/// Exec search for the next key-stopping character.
fn scan_attr_stop(s: &Vec<char>, from: usize) -> (r: Option<usize>)
    requires
        from <= s@.len(),
    ensures
        ({
            let f = find_attr_stop(s@, from as int);
            match r {
                Some(j) => f == j && from <= j < s@.len(),
                None => f == -1,
            }
        }),
{
    let mut i: usize = from;
    while i < s.len()
        invariant
            from <= i <= s@.len(),
            find_attr_stop(s@, from as int) == find_attr_stop(s@, i as int),
        decreases s@.len() - i,
    {
        if ws_char(s[i]) || s[i] == '=' || s[i] == '>' || s[i] == '/' {
            return Some(i);
        }
        i = i + 1;
    }
    None
}

/// Prefixes the attribute list of a successful scan.
pub open spec fn attrs_prepend(pre: Seq<(Seq<char>, Seq<char>)>, o: AttrsOut) -> AttrsOut {
    match o {
        AttrsOut::AttrsDone { attrs, end, empty_tag } => AttrsOut::AttrsDone {
            attrs: pre + attrs,
            end,
            empty_tag,
        },
        f => f,
    }
}

/// Exec outcome of scanning an attribute list.
pub enum AttrScan {
    DoneAttrs { attrs: Vec<XmlAttr>, end: usize, empty_tag: bool },
    FailAttrs { at: usize },
}

/// Exec mirror of `parse_attrs`.
fn scan_attrs(s: &Vec<char>, from: usize) -> (r: AttrScan)
    requires
        from <= s@.len(),
    ensures
        match r {
            AttrScan::DoneAttrs { attrs, end, empty_tag } => parse_attrs(s@, from as int)
                == (AttrsOut::AttrsDone {
                attrs: attrs_view(attrs@),
                end: end as int,
                empty_tag,
            }) && from < end <= s@.len(),
            AttrScan::FailAttrs { at } => parse_attrs(s@, from as int) == (AttrsOut::AttrsFail {
                at: at as int,
            }),
        },
{
    let n: usize = s.len();
    let mut cur: usize = from;
    let mut acc: Vec<XmlAttr> = Vec::new();
    proof {
        assert(attrs_view(acc@) =~= Seq::<(Seq<char>, Seq<char>)>::empty());
        match parse_attrs(s@, from as int) {
            AttrsOut::AttrsDone { attrs, .. } => {
                assert(attrs_view(acc@) + attrs =~= attrs);
            },
            AttrsOut::AttrsFail { .. } => {},
        }
    }
    loop
        invariant
            n == s@.len(),
            from <= cur <= s@.len(),
            attrs_prepend(attrs_view(acc@), parse_attrs(s@, cur as int)) == parse_attrs(
                s@,
                from as int,
            ),
        decreases s@.len() - cur,
    {
        let ghost cur0 = cur as int;
        let k = match scan_non_ws(s, cur) {
            Some(k) => k,
            None => {
                return AttrScan::FailAttrs { at: n };
            },
        };
        if s[k] == '>' {
            proof {
                match parse_attrs(s@, from as int) {
                    AttrsOut::AttrsDone { attrs, .. } => {
                        assert(attrs_view(acc@) + Seq::<(Seq<char>, Seq<char>)>::empty()
                            =~= attrs_view(acc@));
                    },
                    AttrsOut::AttrsFail { .. } => {},
                }
            }
            return AttrScan::DoneAttrs { attrs: acc, end: k + 1, empty_tag: false };
        }
        if s[k] == '/' {
            if k + 1 < n && s[k + 1] == '>' {
                proof {
                    match parse_attrs(s@, from as int) {
                        AttrsOut::AttrsDone { attrs, .. } => {
                            assert(attrs_view(acc@) + Seq::<(Seq<char>, Seq<char>)>::empty()
                                =~= attrs_view(acc@));
                        },
                        AttrsOut::AttrsFail { .. } => {},
                    }
                }
                return AttrScan::DoneAttrs { attrs: acc, end: k + 2, empty_tag: true };
            } else {
                return AttrScan::FailAttrs { at: k + 1 };
            }
        }
        let j = match scan_attr_stop(s, k) {
            Some(j) => j,
            None => {
                return AttrScan::FailAttrs { at: n };
            },
        };
        if j == k {
            return AttrScan::FailAttrs { at: k };
        }
        let key = copy_range(s, k, j);
        let m = match scan_non_ws(s, j) {
            Some(m) => m,
            None => {
                return AttrScan::FailAttrs { at: n };
            },
        };
        if s[m] != '=' {
            return AttrScan::FailAttrs { at: m };
        }
        let q = match scan_non_ws(s, m + 1) {
            Some(q) => q,
            None => {
                return AttrScan::FailAttrs { at: n };
            },
        };
        let qc = s[q];
        if qc != '"' && qc != '\'' {
            return AttrScan::FailAttrs { at: q };
        }
        let p = match scan_char(s, q + 1, qc) {
            Some(p) => p,
            None => {
                return AttrScan::FailAttrs { at: n };
            },
        };
        let value = copy_range(s, q + 1, p);
        proof {
            assert(parse_attrs(s@, cur0) == attrs_prepend(
                seq![(key@, value@)],
                parse_attrs(s@, p + 1),
            ));
        }
        let ghost acc0 = acc@;
        acc.push(XmlAttr { key, value });
        cur = p + 1;
        proof {
            assert(attrs_view(acc@) =~= attrs_view(acc0) + seq![(acc@[acc0.len() as int].key@,
                acc@[acc0.len() as int].value@)]);
            match parse_attrs(s@, cur as int) {
                AttrsOut::AttrsDone { attrs, .. } => {
                    assert(attrs_view(acc0) + (seq![(acc@[acc0.len() as int].key@, acc@[
                        acc0.len() as int].value@)] + attrs) =~= attrs_view(acc@) + attrs);
                },
                AttrsOut::AttrsFail { .. } => {},
            }
        }
    }
}

/// Exec outcome of scanning one event.
pub enum ScanStep {
    NextEv { e: XmlEvent, at: usize },
    BadAt { at: usize },
    EndOfDoc,
}

/// Exec mirror of `next_event`.
fn scan_event(s: &Vec<char>, i: usize) -> (r: ScanStep)
    requires
        i <= s@.len(),
    ensures
        match r {
            ScanStep::NextEv { e, at } => next_event(s@, i as int) == (Step::Next {
                e: e@,
                at: at as int,
            }) && i < at <= s@.len(),
            ScanStep::BadAt { at } => next_event(s@, i as int) == (Step::Bad { at: at as int }),
            ScanStep::EndOfDoc => next_event(s@, i as int) == Step::AtEnd,
        },
{
    let n: usize = s.len();
    if i >= n {
        return ScanStep::EndOfDoc;
    }
    if s[i] != '<' {
        proof {
            lemma_find_char(s@, i as int, '<');
        }
        let (raw, at) = match scan_char(s, i, '<') {
            Some(j) => (copy_range(s, i, j), j),
            None => (copy_range(s, i, n), n),
        };
        return ScanStep::NextEv { e: XmlEvent::Other { raw }, at };
    }
    let is_com = n - i > 3 && s[i + 1] == '!' && s[i + 2] == '-' && s[i + 3] == '-';
    proof {
        lemma_matches_at_iff(s@, i as int, comment_open());
        if is_com {
            assert forall|k: int| 0 <= k < comment_open().len() implies s@[i + k]
                == comment_open()[k] by {
                if k == 0 {
                    assert(comment_open()[0] == '<');
                } else if k == 1 {
                    assert(comment_open()[1] == '!');
                } else if k == 2 {
                    assert(comment_open()[2] == '-');
                } else {
                    assert(comment_open()[3] == '-');
                }
            }
            assert(matches_at(s@, i as int, comment_open()));
        } else {
            if matches_at(s@, i as int, comment_open()) {
                assert(s@[i + 1] == comment_open()[1]);
                assert(s@[i + 2] == comment_open()[2]);
                assert(s@[i + 3] == comment_open()[3]);
                assert(false);
            }
        }
    }
    if is_com {
        let mut close: Vec<char> = Vec::new();
        close.push('-');
        close.push('-');
        close.push('>');
        proof {
            assert(close@ =~= comment_close());
        }
        return match scan_sub(s, i + 4, &close) {
            Some(p) => ScanStep::NextEv { e: XmlEvent::Other { raw: copy_range(s, i, p + 3) }, at: p
                + 3 },
            None => ScanStep::BadAt { at: n },
        };
    }
    if i + 1 < n && (s[i + 1] == '!' || s[i + 1] == '?') {
        return match scan_char(s, i + 1, '>') {
            Some(p) => ScanStep::NextEv { e: XmlEvent::Other { raw: copy_range(s, i, p + 1) }, at: p
                + 1 },
            None => ScanStep::BadAt { at: n },
        };
    }
    if i + 1 < n && s[i + 1] == '/' {
        return match scan_char(s, i + 1, '>') {
            Some(p) => ScanStep::NextEv { e: XmlEvent::End { raw: copy_range(s, i, p + 1) }, at: p
                + 1 },
            None => ScanStep::BadAt { at: n },
        };
    }
    let j = match scan_name_stop(s, i + 1) {
        Some(j) => j,
        None => {
            return ScanStep::BadAt { at: n };
        },
    };
    if j == i + 1 {
        return ScanStep::BadAt { at: i + 1 };
    }
    let name = copy_range(s, i + 1, j);
    match scan_attrs(s, j) {
        AttrScan::DoneAttrs { attrs, end, empty_tag } => {
            let raw = copy_range(s, i, end);
            if empty_tag {
                ScanStep::NextEv { e: XmlEvent::Empty { raw }, at: end }
            } else {
                ScanStep::NextEv { e: XmlEvent::Start { name, attrs, raw }, at: end }
            }
        },
        AttrScan::FailAttrs { at } => ScanStep::BadAt { at },
    }
}

/// Prefixes the event list of a successful scan.
pub open spec fn toks_prepend(pre: Seq<Ev>, o: TokOut) -> TokOut {
    match o {
        TokOut::Toks { evts } => TokOut::Toks { evts: pre + evts },
        f => f,
    }
}

/// Splits a document into its events. On a malformed document the error
/// carries the offset at which scanning failed.
pub fn tokenize(doc: &Vec<char>) -> (r: Result<Vec<XmlEvent>, RepackError>)
    ensures
        match r {
            Result::Ok(evts) => doc_ok(doc@) && events_view(evts@) == doc_events(doc@),
            Result::Err(err) => !doc_ok(doc@) && err == (RepackError::MalformedDocument {
                offset: doc_fail_at(doc@) as usize,
            }) && doc_fail_at(doc@) <= usize::MAX,
        },
{
    let mut evts: Vec<XmlEvent> = Vec::new();
    let mut i: usize = 0;
    proof {
        assert(events_view(evts@) =~= Seq::<Ev>::empty());
        match toks_from(doc@, 0) {
            TokOut::Toks { evts: e0 } => {
                assert(events_view(evts@) + e0 =~= e0);
            },
            TokOut::TokErr { .. } => {},
        }
    }
    loop
        invariant
            i <= doc@.len(),
            toks_prepend(events_view(evts@), toks_from(doc@, i as int)) == toks_from(doc@, 0),
        decreases doc@.len() - i,
    {
        match scan_event(doc, i) {
            ScanStep::EndOfDoc => {
                proof {
                    match toks_from(doc@, 0) {
                        TokOut::Toks { evts: e0 } => {
                            assert(events_view(evts@) + Seq::<Ev>::empty() =~= events_view(evts@));
                        },
                        TokOut::TokErr { .. } => {},
                    }
                }
                return Result::Ok(evts);
            },
            ScanStep::BadAt { at } => {
                return Result::Err(RepackError::MalformedDocument { offset: at });
            },
            ScanStep::NextEv { e, at } => {
                let ghost i0 = i as int;
                let ghost v0 = events_view(evts@);
                let ghost ev = e@;
                evts.push(e);
                i = at;
                proof {
                    assert(events_view(evts@) =~= v0 + seq![ev]);
                    match toks_from(doc@, i as int) {
                        TokOut::Toks { evts: rest } => {
                            assert(toks_from(doc@, i0) == (TokOut::Toks {
                                evts: seq![ev] + rest,
                            }));
                            assert(v0 + (seq![ev] + rest) =~= (v0 + seq![ev]) + rest);
                        },
                        TokOut::TokErr { .. } => {},
                    }
                }
            },
        }
    }
}

/// The views of a list of character vectors.
pub open spec fn seqs_view(vs: Seq<Vec<char>>) -> Seq<Seq<char>> {
    vs.map_values(|v: Vec<char>| v@)
}

/// The value of the first attribute named `key`, if any.
pub open spec fn attr_lookup(attrs: Seq<(Seq<char>, Seq<char>)>, key: Seq<char>) -> Option<
    Seq<char>,
>
    decreases attrs.len(),
{
    if attrs.len() == 0 {
        None
    } else if attrs[0].0 == key {
        Some(attrs[0].1)
    } else {
        attr_lookup(attrs.drop_first(), key)
    }
}

/// One move of the path-match cursor.
pub open spec fn cursor_step(c: nat, e: Ev, path: Seq<Seq<char>>) -> nat {
    match e {
        Ev::Start { name, .. } => if c + 1 < path.len() && name == path[c as int] {
            (c + 1) as nat
        } else {
            c
        },
        Ev::End { .. } => if c > 0 {
            (c - 1) as nat
        } else {
            0 as nat
        },
        _ => c,
    }
}

/// The cursor after the first `i` events.
pub open spec fn cursor_at(evts: Seq<Ev>, path: Seq<Seq<char>>, i: int) -> nat
    decreases i,
{
    if i <= 0 {
        0 as nat
    } else {
        cursor_step(cursor_at(evts, path, i - 1), evts[i - 1], path)
    }
}

/// Whether the event at `i` is an element matched by `path`: a start tag
/// that carries the last path segment's name while the cursor sits on it.
pub open spec fn is_match(evts: Seq<Ev>, path: Seq<Seq<char>>, i: int) -> bool {
    &&& 0 <= i < evts.len()
    &&& evts[i] is Start
    &&& ev_name(evts[i]) == path.last()
    &&& cursor_at(evts, path, i) == path.len() - 1
}

/// The attribute values collected from matched elements among the first
/// `n` events, in document order; a matched element without the attribute
/// contributes nothing.
pub open spec fn find_upto(
    evts: Seq<Ev>,
    path: Seq<Seq<char>>,
    key: Seq<char>,
    n: int,
) -> Seq<Seq<char>>
    decreases n,
{
    if n <= 0 {
        Seq::empty()
    } else {
        let pre = find_upto(evts, path, key, n - 1);
        if is_match(evts, path, n - 1) {
            match attr_lookup(ev_attrs(evts[n - 1]), key) {
                Some(v) => pre.push(v),
                None => pre,
            }
        } else {
            pre
        }
    }
}

/// All attribute values of `key` at elements matched by `path`.
pub open spec fn find_values(evts: Seq<Ev>, path: Seq<Seq<char>>, key: Seq<char>) -> Seq<
    Seq<char>,
> {
    find_upto(evts, path, key, evts.len() as int)
}

/// Returns a copy of the value of the first attribute named `key`.
fn attr_find(attrs: &Vec<XmlAttr>, key: &Vec<char>) -> (r: Option<Vec<char>>)
    ensures
        match r {
            Some(v) => attr_lookup(attrs_view(attrs@), key@) == Some(v@),
            None => attr_lookup(attrs_view(attrs@), key@) is None,
        },
{
    let ghost full = attrs_view(attrs@);
    proof {
        assert(attrs_view(attrs@).skip(0) =~= attrs_view(attrs@));
    }
    let mut i: usize = 0;
    while i < attrs.len()
        invariant
            i <= attrs@.len(),
            full == attrs_view(attrs@),
            attr_lookup(full, key@) == attr_lookup(
                attrs_view(attrs@).skip(i as int),
                key@,
            ),
        decreases attrs@.len() - i,
    {
        proof {
            assert(attrs_view(attrs@).skip(i as int)[0] == attrs@[i as int]@);
        }
        if crate::text::chars_eq(&attrs[i].key, key) {
            let v = crate::text::clone_chars(&attrs[i].value);
            return Some(v);
        }
        i = i + 1;
        proof {
            assert(attrs_view(attrs@).skip(i - 1).drop_first() =~= attrs_view(attrs@).skip(
                i as int,
            ));
        }
    }
    proof {
        assert(attrs_view(attrs@).skip(i as int) =~= Seq::<(Seq<char>, Seq<char>)>::empty());
    }
    None
}

/// Finds all values of `key` on elements matched by `path`, in document
/// order, in one forward pass. A path that is never reached yields an
/// empty list; only a malformed document is an error.
pub fn xml_find_value(doc: &Vec<char>, path: &Vec<Vec<char>>, key: &Vec<char>) -> (r: Result<
    Vec<Vec<char>>,
    RepackError,
>)
    requires
        path@.len() >= 1,
    ensures
        match r {
            Result::Ok(vals) => doc_ok(doc@) && seqs_view(vals@) == find_values(
                doc_events(doc@),
                seqs_view(path@),
                key@,
            ),
            Result::Err(err) => !doc_ok(doc@) && err == (RepackError::MalformedDocument {
                offset: doc_fail_at(doc@) as usize,
            }),
        },
{
    let evts = match tokenize(doc) {
        Result::Ok(evts) => evts,
        Result::Err(err) => {
            return Result::Err(err);
        },
    };
    let ghost vevts = doc_events(doc@);
    let ghost vpath = seqs_view(path@);
    let mut out: Vec<Vec<char>> = Vec::new();
    let mut cursor: usize = 0;
    let mut i: usize = 0;
    while i < evts.len()
        invariant
            path@.len() >= 1,
            vevts == events_view(evts@),
            vpath == seqs_view(path@),
            vpath.len() == path@.len(),
            i <= evts@.len(),
            cursor < vpath.len(),
            cursor as nat == cursor_at(vevts, vpath, i as int),
            seqs_view(out@) == find_upto(vevts, vpath, key@, i as int),
        decreases evts@.len() - i,
    {
        let ghost i0 = i as int;
        proof {
            assert(vevts[i0] == evts@[i0]@);
        }
        match &evts[i] {
            XmlEvent::Start { name, attrs, .. } => {
                proof {
                    assert(ev_name(vevts[i0]) == name@);
                    assert(ev_attrs(vevts[i0]) == attrs_view(attrs@));
                    assert(vpath[cursor as int] == path@[cursor as int]@);
                }
                if crate::text::chars_eq(name, &path[cursor]) {
                    if cursor == path.len() - 1 {
                        match attr_find(attrs, key) {
                            Some(v) => {
                                let ghost out0 = seqs_view(out@);
                                out.push(v);
                                proof {
                                    assert(seqs_view(out@) =~= out0.push(v@));
                                }
                            },
                            None => {},
                        }
                    } else {
                        cursor = cursor + 1;
                    }
                }
            },
            XmlEvent::End { .. } => {
                if cursor > 0 {
                    cursor = cursor - 1;
                }
            },
            XmlEvent::Empty { .. } => {},
            XmlEvent::Other { .. } => {},
        }
        i = i + 1;
    }
    proof {
        assert(vevts.len() == evts@.len());
    }
    Result::Ok(out)
}

/// The attributes that an exchange keeps: all whose key differs from the
/// exchanged one, in their original order.
pub open spec fn keep_attrs(attrs: Seq<(Seq<char>, Seq<char>)>, key: Seq<char>) -> Seq<
    (Seq<char>, Seq<char>),
>
    decreases attrs.len(),
{
    if attrs.len() == 0 {
        Seq::empty()
    } else if attrs[0].0 == key {
        keep_attrs(attrs.drop_first(), key)
    } else {
        seq![attrs[0]] + keep_attrs(attrs.drop_first(), key)
    }
}

/// The quote that renders a value: `"` unless the value contains one.
pub open spec fn quote_for(val: Seq<char>) -> char {
    if find_char(val, 0, '"') == -1 {
        '"'
    } else {
        '\''
    }
}

/// ` key="value"` (or single-quoted when the value holds a `"`).
pub open spec fn render_attr(a: (Seq<char>, Seq<char>)) -> Seq<char> {
    seq![' '] + a.0 + seq!['=', quote_for(a.1)] + a.1 + seq![quote_for(a.1)]
}

/// All attributes rendered in order.
pub open spec fn render_attrs(attrs: Seq<(Seq<char>, Seq<char>)>) -> Seq<char>
    decreases attrs.len(),
{
    if attrs.len() == 0 {
        Seq::empty()
    } else {
        render_attr(attrs[0]) + render_attrs(attrs.drop_first())
    }
}

/// `<name` followed by the rendered attributes and `>`.
pub open spec fn render_start(name: Seq<char>, attrs: Seq<(Seq<char>, Seq<char>)>) -> Seq<char> {
    seq!['<'] + name + render_attrs(attrs) + seq!['>']
}

/// A matched start tag after the exchange: the exchanged key removed from
/// the attribute set and appended afresh with the new value.
pub open spec fn set_attr(e: Ev, key: Seq<char>, val: Seq<char>) -> Ev {
    let na = keep_attrs(ev_attrs(e), key).push((key, val));
    Ev::Start { name: ev_name(e), attrs: na, raw: render_start(ev_name(e), na) }
}

/// The event stream after an exchange: matched elements get the attribute
/// set anew, every other event is kept as it stands.
pub open spec fn exchanged(
    evts: Seq<Ev>,
    path: Seq<Seq<char>>,
    key: Seq<char>,
    val: Seq<char>,
) -> Seq<Ev> {
    Seq::new(
        evts.len(),
        |i: int|
            if is_match(evts, path, i) {
                set_attr(evts[i], key, val)
            } else {
                evts[i]
            },
    )
}

/// The attribute list with `from` replaced by `to` inside the value of
/// every attribute named `key`; other attributes are untouched.
pub open spec fn subst_attrs(
    attrs: Seq<(Seq<char>, Seq<char>)>,
    key: Seq<char>,
    from: Seq<char>,
    to: Seq<char>,
) -> Seq<(Seq<char>, Seq<char>)> {
    Seq::new(
        attrs.len(),
        |j: int|
            if attrs[j].0 == key {
                (attrs[j].0, crate::text::replace_all_spec(attrs[j].1, from, to))
            } else {
                attrs[j]
            },
    )
}

/// A matched start tag after value substitution.
pub open spec fn subst_ev(e: Ev, key: Seq<char>, from: Seq<char>, to: Seq<char>) -> Ev {
    let na = subst_attrs(ev_attrs(e), key, from, to);
    Ev::Start { name: ev_name(e), attrs: na, raw: render_start(ev_name(e), na) }
}

/// The event stream after substitution inside the values of `key` on
/// matched elements that carry it; everything else is kept as it stands.
pub open spec fn substituted(
    evts: Seq<Ev>,
    path: Seq<Seq<char>>,
    key: Seq<char>,
    from: Seq<char>,
    to: Seq<char>,
) -> Seq<Ev> {
    Seq::new(
        evts.len(),
        |i: int|
            if is_match(evts, path, i) && attr_lookup(ev_attrs(evts[i]), key) is Some {
                subst_ev(evts[i], key, from, to)
            } else {
                evts[i]
            },
    )
}

/// The characters of a whole event stream.
pub open spec fn concat_raw(evts: Seq<Ev>) -> Seq<char>
    decreases evts.len(),
{
    if evts.len() == 0 {
        Seq::empty()
    } else {
        ev_raw(evts[0]) + concat_raw(evts.drop_first())
    }
}

pub proof fn lemma_concat_raw_push(evts: Seq<Ev>, e: Ev)
    ensures
        concat_raw(evts.push(e)) == concat_raw(evts) + ev_raw(e),
    decreases evts.len(),
{
    if evts.len() == 0 {
        assert(evts.push(e)[0] == e);
        assert(evts.push(e).drop_first() =~= Seq::<Ev>::empty());
        assert(concat_raw(evts.push(e)) == ev_raw(e) + concat_raw(Seq::<Ev>::empty()));
        assert(Seq::<char>::empty() + ev_raw(e) =~= ev_raw(e));
        assert(ev_raw(e) + Seq::<char>::empty() =~= ev_raw(e));
    } else {
        assert(evts.push(e)[0] == evts[0]);
        assert(evts.push(e).drop_first() =~= evts.drop_first().push(e));
        assert(concat_raw(evts.push(e)) == ev_raw(evts[0]) + concat_raw(
            evts.drop_first().push(e),
        ));
        assert(concat_raw(evts) == ev_raw(evts[0]) + concat_raw(evts.drop_first()));
        lemma_concat_raw_push(evts.drop_first(), e);
        assert(ev_raw(evts[0]) + (concat_raw(evts.drop_first()) + ev_raw(e)) =~= (ev_raw(evts[0])
            + concat_raw(evts.drop_first())) + ev_raw(e));
    }
}

/// A reference to the characters an event stands for.
fn ev_raw_ref(e: &XmlEvent) -> (r: &Vec<char>)
    ensures
        r@ == ev_raw(e@),
{
    match e {
        XmlEvent::Start { raw, .. } => raw,
        XmlEvent::End { raw } => raw,
        XmlEvent::Empty { raw } => raw,
        XmlEvent::Other { raw } => raw,
    }
}

/// Builds the exchanged attribute list: every attribute whose key differs,
/// then the new pair at the end.
fn set_attr_exec(attrs: &Vec<XmlAttr>, key: &Vec<char>, value: &Vec<char>) -> (r: Vec<XmlAttr>)
    ensures
        attrs_view(r@) == keep_attrs(attrs_view(attrs@), key@).push((key@, value@)),
{
    let ghost full = attrs_view(attrs@);
    let mut kept: Vec<XmlAttr> = Vec::new();
    proof {
        assert(full.skip(0) =~= full);
        assert(attrs_view(kept@) + keep_attrs(full, key@) =~= keep_attrs(full, key@));
    }
    let mut j: usize = 0;
    while j < attrs.len()
        invariant
            j <= attrs@.len(),
            full == attrs_view(attrs@),
            keep_attrs(full, key@) == attrs_view(kept@) + keep_attrs(full.skip(j as int), key@),
        decreases attrs@.len() - j,
    {
        proof {
            assert(full.skip(j as int)[0] == attrs@[j as int]@);
            assert(full.skip(j as int).drop_first() =~= full.skip(j + 1));
        }
        let ghost kept0 = attrs_view(kept@);
        if !crate::text::chars_eq(&attrs[j].key, key) {
            let a = XmlAttr {
                key: crate::text::clone_chars(&attrs[j].key),
                value: crate::text::clone_chars(&attrs[j].value),
            };
            kept.push(a);
            proof {
                assert(attrs_view(kept@) =~= kept0 + seq![full.skip(j as int)[0]]);
                assert(kept0 + (seq![full.skip(j as int)[0]] + keep_attrs(full.skip(j + 1), key@))
                    =~= attrs_view(kept@) + keep_attrs(full.skip(j + 1), key@));
            }
        }
        j = j + 1;
    }
    proof {
        assert(full.skip(j as int) =~= Seq::<(Seq<char>, Seq<char>)>::empty());
        assert(attrs_view(kept@) + Seq::<(Seq<char>, Seq<char>)>::empty() =~= attrs_view(kept@));
    }
    let a = XmlAttr { key: crate::text::clone_chars(key), value: crate::text::clone_chars(value) };
    let ghost kept1 = attrs_view(kept@);
    kept.push(a);
    proof {
        assert(attrs_view(kept@) =~= kept1.push((key@, value@)));
    }
    kept
}

/// Renders a start tag from its name and attributes.
fn render_start_exec(name: &Vec<char>, attrs: &Vec<XmlAttr>) -> (r: Vec<char>)
    ensures
        r@ == render_start(name@, attrs_view(attrs@)),
{
    let ghost full = attrs_view(attrs@);
    let mut out: Vec<char> = Vec::new();
    out.push('<');
    crate::text::append_chars(&mut out, name);
    proof {
        assert(out@ =~= seq!['<'] + name@);
        assert(full.skip(0) =~= full);
        assert((seq!['<'] + name@) + render_attrs(full) =~= out@ + render_attrs(full));
    }
    let mut j: usize = 0;
    while j < attrs.len()
        invariant
            j <= attrs@.len(),
            full == attrs_view(attrs@),
            (seq!['<'] + name@) + render_attrs(full) == out@ + render_attrs(full.skip(j as int)),
        decreases attrs@.len() - j,
    {
        proof {
            assert(full.skip(j as int)[0] == attrs@[j as int]@);
            assert(full.skip(j as int).drop_first() =~= full.skip(j + 1));
        }
        let ghost out0 = out@;
        let ghost a = full.skip(j as int)[0];
        out.push(' ');
        crate::text::append_chars(&mut out, &attrs[j].key);
        out.push('=');
        let quote: char = match scan_char(&attrs[j].value, 0, '"') {
            Some(_) => '\'',
            None => '"',
        };
        out.push(quote);
        crate::text::append_chars(&mut out, &attrs[j].value);
        out.push(quote);
        proof {
            assert(quote == quote_for(a.1));
            assert(out@ =~= out0 + render_attr(a));
            assert(out0 + (render_attr(a) + render_attrs(full.skip(j + 1))) =~= (out0 + render_attr(
                a,
            )) + render_attrs(full.skip(j + 1)));
        }
        j = j + 1;
    }
    proof {
        assert(full.skip(j as int) =~= Seq::<(Seq<char>, Seq<char>)>::empty());
        assert(out@ + Seq::<char>::empty() =~= out@);
    }
    out.push('>');
    proof {
        assert(out@ =~= render_start(name@, full));
    }
    out
}

/// Rewrites the document so that every element matched by `path` carries
/// `key=value`: the attribute is removed from the element's set and
/// appended afresh, while every other attribute keeps its order and every
/// other event of the stream is re-emitted unchanged, character for
/// character.
pub fn xml_exchange_value(
    doc: &Vec<char>,
    path: &Vec<Vec<char>>,
    key: &Vec<char>,
    value: &Vec<char>,
) -> (r: Result<Vec<char>, RepackError>)
    requires
        path@.len() >= 1,
    ensures
        match r {
            Result::Ok(out) => doc_ok(doc@) && out@ == concat_raw(
                exchanged(doc_events(doc@), seqs_view(path@), key@, value@),
            ),
            Result::Err(err) => !doc_ok(doc@) && err == (RepackError::MalformedDocument {
                offset: doc_fail_at(doc@) as usize,
            }),
        },
{
    let evts = match tokenize(doc) {
        Result::Ok(evts) => evts,
        Result::Err(err) => {
            return Result::Err(err);
        },
    };
    let ghost vevts = doc_events(doc@);
    let ghost vpath = seqs_view(path@);
    let ghost xs = exchanged(vevts, vpath, key@, value@);
    let mut out: Vec<char> = Vec::new();
    let mut cursor: usize = 0;
    let mut i: usize = 0;
    proof {
        assert(xs.subrange(0, 0) =~= Seq::<Ev>::empty());
    }
    while i < evts.len()
        invariant
            path@.len() >= 1,
            vevts == events_view(evts@),
            vpath == seqs_view(path@),
            vpath.len() == path@.len(),
            xs == exchanged(vevts, vpath, key@, value@),
            i <= evts@.len(),
            cursor < vpath.len(),
            cursor as nat == cursor_at(vevts, vpath, i as int),
            out@ == concat_raw(xs.subrange(0, i as int)),
        decreases evts@.len() - i,
    {
        let ghost i0 = i as int;
        proof {
            assert(vevts[i0] == evts@[i0]@);
            assert(xs.subrange(0, i0 + 1) =~= xs.subrange(0, i0).push(xs[i0]));
            lemma_concat_raw_push(xs.subrange(0, i0), xs[i0]);
        }
        match &evts[i] {
            XmlEvent::Start { name, attrs, raw } => {
                proof {
                    assert(ev_name(vevts[i0]) == name@);
                    assert(ev_attrs(vevts[i0]) == attrs_view(attrs@));
                    assert(vpath[cursor as int] == path@[cursor as int]@);
                }
                let seg_eq = crate::text::chars_eq(name, &path[cursor]);
                if seg_eq && cursor == path.len() - 1 {
                    let na = set_attr_exec(attrs, key, value);
                    let rendered = render_start_exec(name, &na);
                    crate::text::append_chars(&mut out, &rendered);
                    proof {
                        assert(is_match(vevts, vpath, i0));
                        assert(xs[i0] == set_attr(vevts[i0], key@, value@));
                        assert(ev_raw(xs[i0]) == rendered@);
                    }
                } else {
                    crate::text::append_chars(&mut out, raw);
                    if seg_eq {
                        cursor = cursor + 1;
                    }
                    proof {
                        assert(!is_match(vevts, vpath, i0));
                        assert(xs[i0] == vevts[i0]);
                        assert(ev_raw(xs[i0]) == raw@);
                    }
                }
            },
            XmlEvent::End { raw } => {
                crate::text::append_chars(&mut out, raw);
                if cursor > 0 {
                    cursor = cursor - 1;
                }
                proof {
                    assert(!is_match(vevts, vpath, i0));
                    assert(xs[i0] == vevts[i0]);
                }
            },
            XmlEvent::Empty { raw } => {
                crate::text::append_chars(&mut out, raw);
                proof {
                    assert(!is_match(vevts, vpath, i0));
                    assert(xs[i0] == vevts[i0]);
                }
            },
            XmlEvent::Other { raw } => {
                crate::text::append_chars(&mut out, raw);
                proof {
                    assert(!is_match(vevts, vpath, i0));
                    assert(xs[i0] == vevts[i0]);
                }
            },
        }
        i = i + 1;
    }
    proof {
        assert(xs.subrange(0, i as int) =~= xs);
    }
    Result::Ok(out)
}

/// Builds the substituted attribute list: `from` replaced by `to` inside
/// the value of every attribute named `key`.
fn subst_attrs_exec(attrs: &Vec<XmlAttr>, key: &Vec<char>, from: &Vec<char>, to: &Vec<char>) -> (r:
    Vec<XmlAttr>)
    requires
        from@.len() >= 1,
    ensures
        attrs_view(r@) == subst_attrs(attrs_view(attrs@), key@, from@, to@),
{
    let ghost full = attrs_view(attrs@);
    let ghost target = subst_attrs(full, key@, from@, to@);
    let mut outa: Vec<XmlAttr> = Vec::new();
    let mut j: usize = 0;
    while j < attrs.len()
        invariant
            from@.len() >= 1,
            j <= attrs@.len(),
            full == attrs_view(attrs@),
            target == subst_attrs(full, key@, from@, to@),
            outa@.len() == j,
            forall|k: int| 0 <= k < j ==> attrs_view(outa@)[k] == target[k],
        decreases attrs@.len() - j,
    {
        proof {
            assert(full[j as int] == attrs@[j as int]@);
        }
        if crate::text::chars_eq(&attrs[j].key, key) {
            let a = XmlAttr {
                key: crate::text::clone_chars(&attrs[j].key),
                value: crate::text::replace_all(&attrs[j].value, from, to),
            };
            outa.push(a);
        } else {
            let a = XmlAttr {
                key: crate::text::clone_chars(&attrs[j].key),
                value: crate::text::clone_chars(&attrs[j].value),
            };
            outa.push(a);
        }
        j = j + 1;
        proof {
            assert(attrs_view(outa@)[j - 1] == target[j - 1]);
        }
    }
    proof {
        assert(attrs_view(outa@) =~= target);
    }
    outa
}

/// Rewrites the document so that inside every element matched by `path`
/// that carries `key`, each occurrence of `from` in the attribute's value
/// is replaced by `to`; elements without the attribute and every other
/// event are re-emitted unchanged, character for character.
pub fn xml_replace_in_values(
    doc: &Vec<char>,
    path: &Vec<Vec<char>>,
    key: &Vec<char>,
    from: &Vec<char>,
    to: &Vec<char>,
) -> (r: Result<Vec<char>, RepackError>)
    requires
        path@.len() >= 1,
        from@.len() >= 1,
    ensures
        match r {
            Result::Ok(out) => doc_ok(doc@) && out@ == concat_raw(
                substituted(doc_events(doc@), seqs_view(path@), key@, from@, to@),
            ),
            Result::Err(err) => !doc_ok(doc@) && err == (RepackError::MalformedDocument {
                offset: doc_fail_at(doc@) as usize,
            }),
        },
{
    let evts = match tokenize(doc) {
        Result::Ok(evts) => evts,
        Result::Err(err) => {
            return Result::Err(err);
        },
    };
    let ghost vevts = doc_events(doc@);
    let ghost vpath = seqs_view(path@);
    let ghost xs = substituted(vevts, vpath, key@, from@, to@);
    let mut out: Vec<char> = Vec::new();
    let mut cursor: usize = 0;
    let mut i: usize = 0;
    proof {
        assert(xs.subrange(0, 0) =~= Seq::<Ev>::empty());
    }
    while i < evts.len()
        invariant
            path@.len() >= 1,
            from@.len() >= 1,
            vevts == events_view(evts@),
            vpath == seqs_view(path@),
            vpath.len() == path@.len(),
            xs == substituted(vevts, vpath, key@, from@, to@),
            i <= evts@.len(),
            cursor < vpath.len(),
            cursor as nat == cursor_at(vevts, vpath, i as int),
            out@ == concat_raw(xs.subrange(0, i as int)),
        decreases evts@.len() - i,
    {
        let ghost i0 = i as int;
        proof {
            assert(vevts[i0] == evts@[i0]@);
            assert(xs.subrange(0, i0 + 1) =~= xs.subrange(0, i0).push(xs[i0]));
            lemma_concat_raw_push(xs.subrange(0, i0), xs[i0]);
        }
        match &evts[i] {
            XmlEvent::Start { name, attrs, raw } => {
                proof {
                    assert(ev_name(vevts[i0]) == name@);
                    assert(ev_attrs(vevts[i0]) == attrs_view(attrs@));
                    assert(vpath[cursor as int] == path@[cursor as int]@);
                }
                let seg_eq = crate::text::chars_eq(name, &path[cursor]);
                if seg_eq && cursor == path.len() - 1 {
                    match attr_find(attrs, key) {
                        Some(_) => {
                            let na = subst_attrs_exec(attrs, key, from, to);
                            let rendered = render_start_exec(name, &na);
                            crate::text::append_chars(&mut out, &rendered);
                            proof {
                                assert(is_match(vevts, vpath, i0));
                                assert(xs[i0] == subst_ev(vevts[i0], key@, from@, to@));
                                assert(ev_raw(xs[i0]) == rendered@);
                            }
                        },
                        None => {
                            crate::text::append_chars(&mut out, raw);
                            proof {
                                assert(xs[i0] == vevts[i0]);
                            }
                        },
                    }
                } else {
                    crate::text::append_chars(&mut out, raw);
                    if seg_eq {
                        cursor = cursor + 1;
                    }
                    proof {
                        assert(!is_match(vevts, vpath, i0));
                        assert(xs[i0] == vevts[i0]);
                    }
                }
            },
            XmlEvent::End { raw } => {
                crate::text::append_chars(&mut out, raw);
                if cursor > 0 {
                    cursor = cursor - 1;
                }
                proof {
                    assert(!is_match(vevts, vpath, i0));
                    assert(xs[i0] == vevts[i0]);
                }
            },
            XmlEvent::Empty { raw } => {
                crate::text::append_chars(&mut out, raw);
                proof {
                    assert(!is_match(vevts, vpath, i0));
                    assert(xs[i0] == vevts[i0]);
                }
            },
            XmlEvent::Other { raw } => {
                crate::text::append_chars(&mut out, raw);
                proof {
                    assert(!is_match(vevts, vpath, i0));
                    assert(xs[i0] == vevts[i0]);
                }
            },
        }
        i = i + 1;
    }
    proof {
        assert(xs.subrange(0, i as int) =~= xs);
    }
    Result::Ok(out)
}

/// Joins the events back into a document.
pub fn serialize(evts: &Vec<XmlEvent>) -> (r: Vec<char>)
    ensures
        r@ == concat_raw(events_view(evts@)),
{
    let ghost full = events_view(evts@);
    let mut out: Vec<char> = Vec::new();
    proof {
        assert(full.skip(0) =~= full);
        assert(out@ + concat_raw(full) =~= concat_raw(full));
    }
    let mut i: usize = 0;
    while i < evts.len()
        invariant
            i <= evts@.len(),
            full == events_view(evts@),
            concat_raw(full) == out@ + concat_raw(full.skip(i as int)),
        decreases evts@.len() - i,
    {
        proof {
            assert(full.skip(i as int)[0] == evts@[i as int]@);
            assert(full.skip(i as int).drop_first() =~= full.skip(i + 1));
        }
        let ghost out0 = out@;
        let raw = ev_raw_ref(&evts[i]);
        crate::text::append_chars(&mut out, raw);
        proof {
            assert(out0 + (ev_raw(full.skip(i as int)[0]) + concat_raw(full.skip(i + 1))) =~= out@
                + concat_raw(full.skip(i + 1)));
        }
        i = i + 1;
    }
    proof {
        assert(full.skip(i as int) =~= Seq::<Ev>::empty());
        assert(out@ + Seq::<char>::empty() =~= out@);
    }
    out
}

/// How many attributes of the list carry `key`.
pub open spec fn count_key(attrs: Seq<(Seq<char>, Seq<char>)>, key: Seq<char>) -> nat
    decreases attrs.len(),
{
    if attrs.len() == 0 {
        0 as nat
    } else {
        (if attrs[0].0 == key {
            1 as nat
        } else {
            0 as nat
        }) + count_key(attrs.drop_first(), key)
    }
}

/// How many of the first `n` events are elements matched by `path`.
pub open spec fn match_count(evts: Seq<Ev>, path: Seq<Seq<char>>, n: int) -> nat
    decreases n,
{
    if n <= 0 {
        0 as nat
    } else {
        match_count(evts, path, n - 1) + (if is_match(evts, path, n - 1) {
            1 as nat
        } else {
            0 as nat
        })
    }
}

pub proof fn lemma_keep_attrs_no_key(attrs: Seq<(Seq<char>, Seq<char>)>, key: Seq<char>)
    ensures
        forall|j: int|
            0 <= j < keep_attrs(attrs, key).len() ==> #[trigger] keep_attrs(attrs, key)[j].0
                != key,
    decreases attrs.len(),
{
    if attrs.len() > 0 {
        lemma_keep_attrs_no_key(attrs.drop_first(), key);
        assert forall|j: int| 0 <= j < keep_attrs(attrs, key).len() implies #[trigger] keep_attrs(
            attrs,
            key,
        )[j].0 != key by {
            if attrs[0].0 == key {
                assert(keep_attrs(attrs, key)[j] == keep_attrs(attrs.drop_first(), key)[j]);
            } else if j == 0 {
                assert(keep_attrs(attrs, key)[0] == attrs[0]);
            } else {
                assert(keep_attrs(attrs, key)[j] == keep_attrs(attrs.drop_first(), key)[j - 1]);
            }
        }
    }
}

pub proof fn lemma_keep_attrs_id(attrs: Seq<(Seq<char>, Seq<char>)>, key: Seq<char>)
    requires
        forall|j: int| 0 <= j < attrs.len() ==> #[trigger] attrs[j].0 != key,
    ensures
        keep_attrs(attrs, key) == attrs,
    decreases attrs.len(),
{
    if attrs.len() == 0 {
        assert(keep_attrs(attrs, key) =~= attrs);
    } else {
        assert(attrs[0].0 != key);
        assert forall|j: int| 0 <= j < attrs.drop_first().len() implies #[trigger] attrs
            .drop_first()[j].0 != key by {
            assert(attrs.drop_first()[j] == attrs[j + 1]);
        }
        lemma_keep_attrs_id(attrs.drop_first(), key);
        assert(seq![attrs[0]] + attrs.drop_first() =~= attrs);
    }
}

pub proof fn lemma_keep_attrs_push_key(
    attrs: Seq<(Seq<char>, Seq<char>)>,
    key: Seq<char>,
    val: Seq<char>,
)
    ensures
        keep_attrs(attrs.push((key, val)), key) == keep_attrs(attrs, key),
    decreases attrs.len(),
{
    if attrs.len() == 0 {
        assert(attrs.push((key, val))[0] == (key, val));
        assert(attrs.push((key, val)).drop_first() =~= Seq::<(Seq<char>, Seq<char>)>::empty());
        assert(keep_attrs(Seq::<(Seq<char>, Seq<char>)>::empty(), key) =~= keep_attrs(
            attrs,
            key,
        ));
    } else {
        assert(attrs.push((key, val))[0] == attrs[0]);
        assert(attrs.push((key, val)).drop_first() =~= attrs.drop_first().push((key, val)));
        lemma_keep_attrs_push_key(attrs.drop_first(), key, val);
    }
}

pub proof fn lemma_keep_attrs_len(attrs: Seq<(Seq<char>, Seq<char>)>, key: Seq<char>)
    ensures
        keep_attrs(attrs, key).len() + count_key(attrs, key) == attrs.len(),
    decreases attrs.len(),
{
    if attrs.len() > 0 {
        lemma_keep_attrs_len(attrs.drop_first(), key);
    }
}

/// The value of a key appended behind attributes that never carry it.
pub proof fn lemma_lookup_appended(
    attrs: Seq<(Seq<char>, Seq<char>)>,
    key: Seq<char>,
    val: Seq<char>,
)
    requires
        forall|j: int| 0 <= j < attrs.len() ==> #[trigger] attrs[j].0 != key,
    ensures
        attr_lookup(attrs.push((key, val)), key) == Some(val),
    decreases attrs.len(),
{
    if attrs.len() == 0 {
        assert(attrs.push((key, val))[0] == (key, val));
    } else {
        assert(attrs.push((key, val))[0] == attrs[0]);
        assert(attrs[0].0 != key);
        assert(attrs.push((key, val)).drop_first() =~= attrs.drop_first().push((key, val)));
        assert forall|j: int| 0 <= j < attrs.drop_first().len() implies #[trigger] attrs
            .drop_first()[j].0 != key by {
            assert(attrs.drop_first()[j] == attrs[j + 1]);
        }
        lemma_lookup_appended(attrs.drop_first(), key, val);
    }
}

/// Exchanging an attribute that occurs once replaces it: the attribute
/// count is unchanged. Exchanging an absent attribute appends it: the
/// count grows by one. Either way the untouched attributes keep their
/// relative order, and the new value is the one found for the key.
pub proof fn lemma_replace_vs_insert(
    attrs: Seq<(Seq<char>, Seq<char>)>,
    key: Seq<char>,
    val: Seq<char>,
)
    ensures
        ({
            let na = keep_attrs(attrs, key).push((key, val));
            &&& count_key(attrs, key) == 1 ==> na.len() == attrs.len()
            &&& count_key(attrs, key) == 0 ==> na.len() == attrs.len() + 1
            &&& na.last() == (key, val)
            &&& na.drop_last() == keep_attrs(attrs, key)
            &&& attr_lookup(na, key) == Some(val)
        }),
{
    lemma_keep_attrs_len(attrs, key);
    lemma_keep_attrs_no_key(attrs, key);
    lemma_lookup_appended(keep_attrs(attrs, key), key, val);
    assert(keep_attrs(attrs, key).push((key, val)).drop_last() =~= keep_attrs(attrs, key));
}

/// The exchange leaves the cursor's course untouched: every event keeps
/// its kind and, for start tags, its name.
pub proof fn lemma_exchange_cursor(
    evts: Seq<Ev>,
    path: Seq<Seq<char>>,
    key: Seq<char>,
    val: Seq<char>,
    i: int,
)
    requires
        0 <= i <= evts.len(),
    ensures
        cursor_at(exchanged(evts, path, key, val), path, i) == cursor_at(evts, path, i),
    decreases i,
{
    if i > 0 {
        lemma_exchange_cursor(evts, path, key, val, i - 1);
    }
}

/// The exchange matches exactly the elements the original matched.
pub proof fn lemma_exchange_same_matches(
    evts: Seq<Ev>,
    path: Seq<Seq<char>>,
    key: Seq<char>,
    val: Seq<char>,
)
    ensures
        forall|i: int|
            is_match(exchanged(evts, path, key, val), path, i) == is_match(evts, path, i),
{
    assert forall|i: int|
        is_match(exchanged(evts, path, key, val), path, i) == is_match(evts, path, i) by {
        if 0 <= i < evts.len() {
            lemma_exchange_cursor(evts, path, key, val, i);
        }
    }
}

/// After an exchange, finding the same key at the same path yields the
/// new value once for every matched element, whether or not the element
/// carried the key before.
pub proof fn lemma_exchange_then_find(
    evts: Seq<Ev>,
    path: Seq<Seq<char>>,
    key: Seq<char>,
    val: Seq<char>,
    n: int,
)
    requires
        0 <= n <= evts.len(),
    ensures
        find_upto(exchanged(evts, path, key, val), path, key, n) =~= Seq::new(
            match_count(evts, path, n),
            |k: int| val,
        ),
    decreases n,
{
    let xs = exchanged(evts, path, key, val);
    if n > 0 {
        lemma_exchange_then_find(evts, path, key, val, n - 1);
        lemma_exchange_same_matches(evts, path, key, val);
        if is_match(evts, path, n - 1) {
            lemma_keep_attrs_no_key(ev_attrs(evts[n - 1]), key);
            lemma_lookup_appended(keep_attrs(ev_attrs(evts[n - 1]), key), key, val);
            assert(ev_attrs(xs[n - 1]) == keep_attrs(ev_attrs(evts[n - 1]), key).push((key, val)));
            assert(attr_lookup(ev_attrs(xs[n - 1]), key) == Some(val));
        }
    }
}

/// Exchanging twice with the same value is the same as exchanging once:
/// the rewrite is idempotent, event for event.
pub proof fn lemma_exchange_idempotent(
    evts: Seq<Ev>,
    path: Seq<Seq<char>>,
    key: Seq<char>,
    val: Seq<char>,
)
    ensures
        exchanged(exchanged(evts, path, key, val), path, key, val) =~= exchanged(
            evts,
            path,
            key,
            val,
        ),
{
    let xs = exchanged(evts, path, key, val);
    lemma_exchange_same_matches(evts, path, key, val);
    assert forall|i: int| 0 <= i < xs.len() implies exchanged(xs, path, key, val)[i] == xs[i] by {
        if is_match(evts, path, i) {
            let a0 = ev_attrs(evts[i]);
            lemma_keep_attrs_no_key(a0, key);
            lemma_keep_attrs_push_key(keep_attrs(a0, key), key, val);
            lemma_keep_attrs_id(keep_attrs(a0, key), key);
            assert(ev_attrs(xs[i]) == keep_attrs(a0, key).push((key, val)));
            assert(keep_attrs(ev_attrs(xs[i]), key) == keep_attrs(a0, key));
            assert(ev_name(xs[i]) == ev_name(evts[i]));
        }
    }
}

/// Everything `find` returns comes from an element matched by the path:
/// a start tag named like the last path segment, reached with the cursor
/// on that segment, and carrying the key; and every such element's value
/// is returned. Elements at other depths or paths contribute nothing.
#[verifier::rlimit(100)]
#[verifier::spinoff_prover]
pub proof fn lemma_find_path_scope(
    evts: Seq<Ev>,
    path: Seq<Seq<char>>,
    key: Seq<char>,
    n: int,
)
    requires
        0 <= n <= evts.len(),
    ensures
        forall|i: int|
            #[trigger] is_match(evts, path, i) ==> evts[i] is Start && ev_name(evts[i])
                == path.last() && cursor_at(evts, path, i) == path.len() - 1,
        forall|k: int|
            #![trigger find_upto(evts, path, key, n)[k]]
            0 <= k < find_upto(evts, path, key, n).len() ==> exists|i: int|
                0 <= i < n && #[trigger] is_match(evts, path, i) && attr_lookup(
                    ev_attrs(evts[i]),
                    key,
                ) == Some(find_upto(evts, path, key, n)[k]),
        forall|i: int|
            0 <= i < n && #[trigger] is_match(evts, path, i) && attr_lookup(ev_attrs(evts[i]), key)
                is Some ==> find_upto(evts, path, key, n).contains(
                attr_lookup(ev_attrs(evts[i]), key)->Some_0,
            ),
    decreases n,
{
    if n > 0 {
        lemma_find_path_scope(evts, path, key, n - 1);
        let pre = find_upto(evts, path, key, n - 1);
        let cur = find_upto(evts, path, key, n);
        if is_match(evts, path, n - 1) && attr_lookup(ev_attrs(evts[n - 1]), key) is Some {
            let v = attr_lookup(ev_attrs(evts[n - 1]), key)->Some_0;
            assert(cur == pre.push(v));
            assert(cur[cur.len() - 1] == v);
            assert forall|k: int| #![trigger cur[k]] 0 <= k < cur.len() implies exists|i: int|
                0 <= i < n && #[trigger] is_match(evts, path, i) && attr_lookup(
                    ev_attrs(evts[i]),
                    key,
                ) == Some(cur[k]) by {
                if k < pre.len() {
                    assert(cur[k] == pre[k]);
                    let i0 = choose|i: int|
                        0 <= i < n - 1 && #[trigger] is_match(evts, path, i) && attr_lookup(
                            ev_attrs(evts[i]),
                            key,
                        ) == Some(pre[k]);
                    assert(is_match(evts, path, i0));
                } else {
                    assert(is_match(evts, path, n - 1));
                }
            }
            assert forall|i: int|
                0 <= i < n && #[trigger] is_match(evts, path, i) && attr_lookup(
                    ev_attrs(evts[i]),
                    key,
                ) is Some implies cur.contains(attr_lookup(ev_attrs(evts[i]), key)->Some_0) by {
                let v2 = attr_lookup(ev_attrs(evts[i]), key)->Some_0;
                if i < n - 1 {
                    assert(pre.contains(v2));
                    let k0 = choose|k: int| 0 <= k < pre.len() && pre[k] == v2;
                    assert(cur[k0] == v2);
                } else {
                    assert(cur[cur.len() - 1] == v2);
                }
            }
        } else {
            assert(cur == pre);
            assert forall|k2: int| #![trigger cur[k2]] 0 <= k2 < cur.len() implies exists|i: int|
                0 <= i < n && #[trigger] is_match(evts, path, i) && attr_lookup(
                    ev_attrs(evts[i]),
                    key,
                ) == Some(cur[k2]) by {
                let i0 = choose|i: int|
                    0 <= i < n - 1 && #[trigger] is_match(evts, path, i) && attr_lookup(
                        ev_attrs(evts[i]),
                        key,
                    ) == Some(pre[k2]);
                assert(is_match(evts, path, i0));
            }
            assert forall|i: int|
                0 <= i < n && #[trigger] is_match(evts, path, i) && attr_lookup(
                    ev_attrs(evts[i]),
                    key,
                ) is Some implies cur.contains(attr_lookup(ev_attrs(evts[i]), key)->Some_0) by {
                let v2 = attr_lookup(ev_attrs(evts[i]), key)->Some_0;
                if i < n - 1 {
                    assert(pre.contains(v2));
                }
            }
        }
    }
}

/// A well-formed document's events hold exactly its characters: scanning
/// loses nothing and invents nothing.
pub proof fn lemma_toks_content(s: Seq<char>, i: int)
    requires
        0 <= i <= s.len(),
        toks_from(s, i) is Toks,
    ensures
        concat_raw(toks_from(s, i)->Toks_evts) == s.subrange(i, s.len() as int),
    decreases s.len() - i,
{
    lemma_next_event_bounds(s, i);
    match next_event(s, i) {
        Step::AtEnd => {
            assert(s.subrange(i, s.len() as int) =~= Seq::<char>::empty());
        },
        Step::Next { e, at } => {
            lemma_toks_content(s, at);
            let rest = toks_from(s, at)->Toks_evts;
            assert((seq![e] + rest)[0] == e);
            assert((seq![e] + rest).drop_first() =~= rest);
            assert(concat_raw(seq![e] + rest) == ev_raw(e) + concat_raw(rest));
            assert(s.subrange(i, at) + s.subrange(at, s.len() as int) =~= s.subrange(
                i,
                s.len() as int,
            ));
        },
        Step::Bad { .. } => {},
    }
}

pub proof fn lemma_find_name_stop_determined(s: Seq<char>, i: int, p: int)
    requires
        0 <= i <= p < s.len(),
        is_name_stop(s[p]),
        forall|j: int| i <= j < p ==> !is_name_stop(s[j]),
    ensures
        find_name_stop(s, i) == p,
    decreases p - i,
{
    if i < p {
        lemma_find_name_stop_determined(s, i + 1, p);
    }
}

pub proof fn lemma_find_attr_stop_determined(s: Seq<char>, i: int, p: int)
    requires
        0 <= i <= p < s.len(),
        is_attr_stop(s[p]),
        forall|j: int| i <= j < p ==> !is_attr_stop(s[j]),
    ensures
        find_attr_stop(s, i) == p,
    decreases p - i,
{
    if i < p {
        lemma_find_attr_stop_determined(s, i + 1, p);
    }
}

/// Two windows of two documents that hold the same characters.
pub open spec fn win_eq(s1: Seq<char>, i1: int, s2: Seq<char>, i2: int, l: int) -> bool {
    &&& 0 <= l
    &&& 0 <= i1 && i1 + l <= s1.len()
    &&& 0 <= i2 && i2 + l <= s2.len()
    &&& forall|j: int| #![trigger s2[j]] i2 <= j < i2 + l ==> s1[j - (i2 - i1)] == s2[j]
}

/// Attribute scanning is local: on an equal window it reads the same
/// attributes and moves the same distance, wherever the window sits.
#[verifier::rlimit(50)]
pub proof fn lemma_parse_attrs_shift(s1: Seq<char>, i1: int, s2: Seq<char>, i2: int, l: int)
    requires
        win_eq(s1, i1, s2, i2, l),
        parse_attrs(s1, i1) is AttrsDone,
        ({
            let o = parse_attrs(s1, i1);
            match o {
                AttrsOut::AttrsDone { end, .. } => end - i1 <= l,
                _ => false,
            }
        }),
    ensures
        ({
            let o = parse_attrs(s1, i1);
            match o {
                AttrsOut::AttrsDone { attrs, end, empty_tag } => parse_attrs(s2, i2)
                    == (AttrsOut::AttrsDone { attrs, end: i2 + (end - i1), empty_tag }),
                _ => false,
            }
        }),
    decreases s1.len() - i1,
{
    assert(0 <= i1 <= s1.len());
    lemma_parse_attrs_bounds(s1, i1);
    lemma_find_non_ws(s1, i1);
    let d = i2 - i1;
    let end1 = match parse_attrs(s1, i1) {
        AttrsOut::AttrsDone { end, .. } => end,
        AttrsOut::AttrsFail { at } => at,
    };
    let k = find_non_ws(s1, i1);
    assert(k != -1) by {
        if k == -1 {
            assert(parse_attrs(s1, i1) == (AttrsOut::AttrsFail { at: s1.len() as int }));
        }
    }
    if s1[k] == '>' {
        assert(end1 == k + 1);
        assert forall|j: int| i2 <= j < k + d implies is_ws(s2[j]) by {
            assert(s2[j] == s1[j - d]);
        }
        assert(s2[k + d] == s1[k]);
        lemma_find_non_ws_determined(s2, i2, k + d);
    } else if s1[k] == '/' {
        assert(k + 1 < s1.len() && s1[k + 1] == '>') by {
            if !(k + 1 < s1.len() && s1[k + 1] == '>') {
                assert(parse_attrs(s1, i1) == (AttrsOut::AttrsFail { at: k + 1 }));
            }
        }
        assert(end1 == k + 2);
        assert forall|j: int| i2 <= j < k + d implies is_ws(s2[j]) by {
            assert(s2[j] == s1[j - d]);
        }
        assert(s2[k + d] == s1[k]);
        assert(s2[k + 1 + d] == s1[k + 1]);
        lemma_find_non_ws_determined(s2, i2, k + d);
    } else {
        lemma_find_attr_stop(s1, k);
        let j = find_attr_stop(s1, k);
        assert(j != -1) by {
            if j == -1 {
                assert(parse_attrs(s1, i1) == (AttrsOut::AttrsFail { at: s1.len() as int }));
            }
        }
        assert(j != k) by {
            if j == k {
                assert(parse_attrs(s1, i1) == (AttrsOut::AttrsFail { at: k }));
            }
        }
        lemma_find_non_ws(s1, j);
        let m = find_non_ws(s1, j);
        assert(m != -1) by {
            if m == -1 {
                assert(parse_attrs(s1, i1) == (AttrsOut::AttrsFail { at: s1.len() as int }));
            }
        }
        assert(s1[m] == '=') by {
            if s1[m] != '=' {
                assert(parse_attrs(s1, i1) == (AttrsOut::AttrsFail { at: m }));
            }
        }
        lemma_find_non_ws(s1, m + 1);
        let q = find_non_ws(s1, m + 1);
        assert(q != -1) by {
            if q == -1 {
                assert(parse_attrs(s1, i1) == (AttrsOut::AttrsFail { at: s1.len() as int }));
            }
        }
        assert(s1[q] == '"' || s1[q] == '\'') by {
            if !(s1[q] == '"' || s1[q] == '\'') {
                assert(parse_attrs(s1, i1) == (AttrsOut::AttrsFail { at: q }));
            }
        }
        crate::text::lemma_find_char(s1, q + 1, s1[q]);
        let pp = find_char(s1, q + 1, s1[q]);
        assert(pp != -1) by {
            if pp == -1 {
                assert(parse_attrs(s1, i1) == (AttrsOut::AttrsFail { at: s1.len() as int }));
            }
        }
        assert(i1 < pp + 1 <= s1.len()) by {
            if !(i1 < pp + 1 <= s1.len()) {
                assert(parse_attrs(s1, i1) == (AttrsOut::AttrsFail { at: pp }));
            }
        }
        assert(parse_attrs(s1, pp + 1) is AttrsDone) by {
            match parse_attrs(s1, pp + 1) {
                AttrsOut::AttrsDone { .. } => {},
                AttrsOut::AttrsFail { at } => {
                    assert(parse_attrs(s1, i1) == (AttrsOut::AttrsFail { at }));
                },
            }
        }
        lemma_parse_attrs_bounds(s1, pp + 1);
        let end_rest = match parse_attrs(s1, pp + 1) {
            AttrsOut::AttrsDone { end, .. } => end,
            AttrsOut::AttrsFail { at } => at,
        };
        assert(end1 == end_rest);
        assert(pp + 1 < end1);
        // mirror every scan on the equal window of the other document
        assert forall|j: int| i2 <= j < k + d implies is_ws(s2[j]) by {
            assert(s2[j] == s1[j - d]);
        }
        assert(s2[k + d] == s1[k]);
        lemma_find_non_ws_determined(s2, i2, k + d);
        assert forall|jj: int| k + d <= jj < j + d implies !is_attr_stop(s2[jj]) by {
            assert(s2[jj] == s1[jj - d]);
        }
        assert(s2[j + d] == s1[j]);
        lemma_find_attr_stop_determined(s2, k + d, j + d);
        assert forall|jj: int| j + d <= jj < m + d implies is_ws(s2[jj]) by {
            assert(s2[jj] == s1[jj - d]);
        }
        assert(s2[m + d] == s1[m]);
        lemma_find_non_ws_determined(s2, j + d, m + d);
        assert forall|jj: int| m + 1 + d <= jj < q + d implies is_ws(s2[jj]) by {
            assert(s2[jj] == s1[jj - d]);
        }
        assert(s2[q + d] == s1[q]);
        lemma_find_non_ws_determined(s2, m + 1 + d, q + d);
        assert forall|jj: int| q + 1 + d <= jj < pp + d implies s2[jj] != s1[q] by {
            assert(s2[jj] == s1[jj - d]);
        }
        assert(s2[pp + d] == s1[pp]);
        crate::text::lemma_find_char_determined(s2, q + 1 + d, pp + d, s1[q]);
        assert(s1.subrange(k, j) =~= s2.subrange(k + d, j + d)) by {
            assert forall|jj: int| #![trigger s1.subrange(k, j)[jj]] 0 <= jj < j - k implies s1
                .subrange(k, j)[jj] == s2.subrange(k + d, j + d)[jj] by {
                assert(s2[k + d + jj] == s1[k + jj]);
            }
        }
        assert(s1.subrange(q + 1, pp) =~= s2.subrange(q + 1 + d, pp + d)) by {
            assert forall|jj: int| #![trigger s1.subrange(q + 1, pp)[jj]] 0 <= jj < pp - q - 1
                implies s1.subrange(q + 1, pp)[jj] == s2.subrange(q + 1 + d, pp + d)[jj] by {
                assert(s2[q + 1 + d + jj] == s1[q + 1 + jj]);
            }
        }
        assert(win_eq(s1, pp + 1, s2, pp + 1 + d, l - (pp + 1 - i1)));
        lemma_parse_attrs_shift(s1, pp + 1, s2, pp + 1 + d, l - (pp + 1 - i1));
    }
}

/// Event scanning is local: an event's characters, placed anywhere (for
/// text: with the same terminator situation after them), scan to the
/// same event.
pub proof fn lemma_event_shift(s1: Seq<char>, i1: int, s2: Seq<char>, i2: int)
    requires
        0 <= i1 <= s1.len(),
        0 <= i2 <= s2.len(),
        next_event(s1, i1) is Next,
        ({
            let at1 = match next_event(s1, i1) {
                Step::Next { at, .. } => at,
                _ => 0,
            };
            &&& win_eq(s1, i1, s2, i2, at1 - i1)
            &&& (s1[i1] != '<' ==> i2 + (at1 - i1) == s2.len() || s2[i2 + (at1 - i1)] == '<')
        }),
    ensures
        ({
            let at1 = match next_event(s1, i1) {
                Step::Next { at, .. } => at,
                _ => 0,
            };
            let e1 = match next_event(s1, i1) {
                Step::Next { e, .. } => e,
                _ => Ev::Other { raw: Seq::empty() },
            };
            next_event(s2, i2) == (Step::Next { e: e1, at: i2 + (at1 - i1) })
        }),
{
    lemma_next_event_bounds(s1, i1);
    let d = i2 - i1;
    let at1 = match next_event(s1, i1) {
        Step::Next { at, .. } => at,
        _ => 0,
    };
    let l = at1 - i1;
    assert(l >= 1);
    assert(s2[i2] == s1[i1]);
    if s1[i1] != '<' {
        crate::text::lemma_find_char(s1, i1, '<');
        let j1 = find_char(s1, i1, '<');
        if j1 == -1 {
            assert(at1 == s1.len());
            assert(forall|j: int| i2 <= j < i2 + l ==> s2[j] != '<');
            if i2 + l == s2.len() {
                crate::text::lemma_find_char_none(s2, i2, '<');
                assert(s2.subrange(i2, s2.len() as int) =~= s1.subrange(i1, at1));
            } else {
                crate::text::lemma_find_char_determined(s2, i2, i2 + l, '<');
                assert(s2.subrange(i2, i2 + l) =~= s1.subrange(i1, at1));
            }
        } else {
            assert(at1 == j1);
            assert(forall|j: int| i2 <= j < i2 + l ==> s2[j] != '<');
            if i2 + l == s2.len() {
                crate::text::lemma_find_char_none(s2, i2, '<');
                assert(s2.subrange(i2, s2.len() as int) =~= s1.subrange(i1, at1));
            } else {
                crate::text::lemma_find_char_determined(s2, i2, i2 + l, '<');
                assert(s2.subrange(i2, i2 + l) =~= s1.subrange(i1, at1));
            }
        }
    } else if matches_at(s1, i1, comment_open()) {
        lemma_matches_at_iff(s1, i1, comment_open());
        lemma_matches_at_iff(s2, i2, comment_open());
        assert(l >= 7) by {
            lemma_find_sub(s1, i1 + 4, comment_close());
        }
        assert(matches_at(s2, i2, comment_open()));
        lemma_find_sub(s1, i1 + 4, comment_close());
        let p1 = find_sub(s1, i1 + 4, comment_close());
        assert(p1 != -1 && at1 == p1 + 3);
        assert(matches_at(s2, p1 + d, comment_close())) by {
            lemma_matches_at_iff(s1, p1, comment_close());
            lemma_matches_at_iff(s2, p1 + d, comment_close());
        }
        assert forall|j: int| i2 + 4 <= j < p1 + d implies !matches_at(
            s2,
            j,
            comment_close(),
        ) by {
            if matches_at(s2, j, comment_close()) {
                lemma_matches_at_iff(s2, j, comment_close());
                lemma_matches_at_iff(s1, j - d, comment_close());
                assert(matches_at(s1, j - d, comment_close()));
            }
        }
        crate::text::lemma_find_sub_determined(s2, i2 + 4, p1 + d, comment_close());
        assert(s2.subrange(i2, p1 + d + 3) =~= s1.subrange(i1, p1 + 3));
    } else if i1 + 1 < s1.len() && (s1[i1 + 1] == '!' || s1[i1 + 1] == '?') {
        crate::text::lemma_find_char(s1, i1 + 1, '>');
        let p1 = find_char(s1, i1 + 1, '>');
        assert(p1 != -1 && at1 == p1 + 1);
        assert(s2[i2 + 1] == s1[i1 + 1]);
        assert(i2 + 1 < s2.len());
        assert(!matches_at(s2, i2, comment_open())) by {
            if matches_at(s2, i2, comment_open()) {
                lemma_matches_at_iff(s2, i2, comment_open());
                lemma_matches_at_iff(s1, i1, comment_open());
                if l >= 4 {
                    assert(matches_at(s1, i1, comment_open()));
                } else {
                    assert(s2[i2 + 2] == '>');
                }
            }
        }
        crate::text::lemma_find_char_determined(s2, i2 + 1, p1 + d, '>');
        assert(s2.subrange(i2, p1 + d + 1) =~= s1.subrange(i1, p1 + 1));
    } else if i1 + 1 < s1.len() && s1[i1 + 1] == '/' {
        crate::text::lemma_find_char(s1, i1 + 1, '>');
        let p1 = find_char(s1, i1 + 1, '>');
        assert(p1 != -1 && at1 == p1 + 1);
        assert(s2[i2 + 1] == '/');
        assert(i2 + 1 < s2.len());
        assert(!matches_at(s2, i2, comment_open())) by {
            if matches_at(s2, i2, comment_open()) {
                lemma_matches_at_iff(s2, i2, comment_open());
            }
        }
        crate::text::lemma_find_char_determined(s2, i2 + 1, p1 + d, '>');
        assert(s2.subrange(i2, p1 + d + 1) =~= s1.subrange(i1, p1 + 1));
    } else {
        // a start tag: the name is nonempty, so its first character rules
        // a comment, a declaration and an end tag out
        lemma_find_name_stop(s1, i1 + 1);
        let j1 = find_name_stop(s1, i1 + 1);
        assert(j1 != -1 && j1 != i1 + 1);
        lemma_parse_attrs_bounds(s1, j1);
        assert(j1 < at1) by {
            match parse_attrs(s1, j1) {
                AttrsOut::AttrsDone { .. } => {},
                AttrsOut::AttrsFail { .. } => {
                    assert(false);
                },
            }
        }
        assert(i1 + 1 < s1.len());
        assert(s1[i1 + 1] != '!' && s1[i1 + 1] != '?' && s1[i1 + 1] != '/');
        assert(s2[i2 + 1] == s1[i1 + 1]);
        assert(i2 + 1 < s2.len());
        assert(!matches_at(s2, i2, comment_open())) by {
            if matches_at(s2, i2, comment_open()) {
                lemma_matches_at_iff(s2, i2, comment_open());
            }
        }
        lemma_find_name_stop_determined(s2, i2 + 1, j1 + d);
        assert(s1.subrange(i1 + 1, j1) =~= s2.subrange(i2 + 1, j1 + d));
        assert(win_eq(s1, j1, s2, j1 + d, l - (j1 - i1)));
        match parse_attrs(s1, j1) {
            AttrsOut::AttrsDone { attrs, end, empty_tag } => {
                lemma_parse_attrs_shift(s1, j1, s2, j1 + d, l - (j1 - i1));
                assert(s1.subrange(i1, end) =~= s2.subrange(i2, end + d));
            },
            AttrsOut::AttrsFail { .. } => {},
        }
    }
}

/// An attribute key the renderer can write back: nonempty, free of the
/// characters that end a key.
pub open spec fn wf_attr_key(k: Seq<char>) -> bool {
    k.len() >= 1 && forall|j: int| 0 <= j < k.len() ==> !is_attr_stop(#[trigger] k[j])
}

/// An attribute value the renderer can quote: at least one of the two
/// quote characters does not occur in it.
pub open spec fn wf_attr_value(v: Seq<char>) -> bool {
    find_char(v, 0, '"') == -1 || find_char(v, 0, '\'') == -1
}

pub open spec fn wf_attr(a: (Seq<char>, Seq<char>)) -> bool {
    wf_attr_key(a.0) && wf_attr_value(a.1)
}

pub open spec fn wf_attrs(attrs: Seq<(Seq<char>, Seq<char>)>) -> bool {
    forall|i: int| 0 <= i < attrs.len() ==> wf_attr(#[trigger] attrs[i])
}

/// An element name the renderer can write back: nonempty, free of the
/// characters that end a name, and not opening a comment, a declaration
/// or an end tag.
pub open spec fn wf_name(n: Seq<char>) -> bool {
    &&& n.len() >= 1
    &&& forall|j: int| 0 <= j < n.len() ==> !is_name_stop(#[trigger] n[j])
    &&& n[0] != '!' && n[0] != '?' && n[0] != '/'
}

/// Scanned attributes are well formed: keys stop at the first stopping
/// character, values at their own quote.
pub proof fn lemma_parse_attrs_wf(s: Seq<char>, i: int)
    requires
        0 <= i <= s.len(),
        parse_attrs(s, i) is AttrsDone,
    ensures
        ({
            match parse_attrs(s, i) {
                AttrsOut::AttrsDone { attrs, .. } => wf_attrs(attrs),
                _ => false,
            }
        }),
    decreases s.len() - i,
{
    lemma_find_non_ws(s, i);
    let k = find_non_ws(s, i);
    assert(k != -1) by {
        if k == -1 {
            assert(parse_attrs(s, i) == (AttrsOut::AttrsFail { at: s.len() as int }));
        }
    }
    if s[k] == '>' {
    } else if s[k] == '/' {
    } else {
        lemma_find_attr_stop(s, k);
        let j = find_attr_stop(s, k);
        assert(j != -1 && j != k);
        let key = s.subrange(k, j);
        assert(wf_attr_key(key)) by {
            assert forall|jj: int| 0 <= jj < key.len() implies !is_attr_stop(
                #[trigger] key[jj],
            ) by {
                assert(key[jj] == s[k + jj]);
            }
        }
        lemma_find_non_ws(s, j);
        let m = find_non_ws(s, j);
        assert(m != -1 && s[m] == '=');
        lemma_find_non_ws(s, m + 1);
        let q = find_non_ws(s, m + 1);
        assert(q != -1 && (s[q] == '"' || s[q] == '\''));
        crate::text::lemma_find_char(s, q + 1, s[q]);
        let pp = find_char(s, q + 1, s[q]);
        assert(pp != -1 && i < pp + 1 <= s.len());
        let value = s.subrange(q + 1, pp);
        assert(wf_attr_value(value)) by {
            assert forall|jj: int| 0 <= jj < value.len() implies value[jj] != s[q] by {
                assert(value[jj] == s[q + 1 + jj]);
            }
            crate::text::lemma_find_char_none(value, 0, s[q]);
        }
        assert(parse_attrs(s, pp + 1) is AttrsDone) by {
            match parse_attrs(s, pp + 1) {
                AttrsOut::AttrsDone { .. } => {},
                AttrsOut::AttrsFail { at } => {
                    assert(parse_attrs(s, i) == (AttrsOut::AttrsFail { at }));
                },
            }
        }
        lemma_parse_attrs_wf(s, pp + 1);
        match parse_attrs(s, pp + 1) {
            AttrsOut::AttrsDone { attrs: rest, .. } => {
                assert forall|idx: int| 0 <= idx < (seq![(key, value)] + rest).len() implies
                    wf_attr(#[trigger] (seq![(key, value)] + rest)[idx]) by {
                    if idx == 0 {
                        assert((seq![(key, value)] + rest)[0] == (key, value));
                    } else {
                        assert((seq![(key, value)] + rest)[idx] == rest[idx - 1]);
                    }
                }
            },
            AttrsOut::AttrsFail { .. } => {},
        }
    }
}

/// A scanned start tag carries a well-formed name and attribute list.
pub proof fn lemma_start_event_wf(s: Seq<char>, i: int)
    requires
        0 <= i <= s.len(),
        next_event(s, i) is Next,
        ({
            match next_event(s, i) {
                Step::Next { e, .. } => e is Start,
                _ => false,
            }
        }),
    ensures
        ({
            match next_event(s, i) {
                Step::Next { e, .. } => wf_name(ev_name(e)) && wf_attrs(ev_attrs(e)),
                _ => false,
            }
        }),
{
    lemma_next_event_bounds(s, i);
    assert(s[i] == '<');
    lemma_find_name_stop(s, i + 1);
    let j = find_name_stop(s, i + 1);
    assert(j != -1 && j != i + 1);
    let name = s.subrange(i + 1, j);
    assert(wf_name(name)) by {
        assert forall|jj: int| 0 <= jj < name.len() implies !is_name_stop(
            #[trigger] name[jj],
        ) by {
            assert(name[jj] == s[i + 1 + jj]);
        }
        assert(name[0] == s[i + 1]);
    }
    lemma_parse_attrs_wf(s, j);
}

/// A rendered attribute list, followed by `>`, scans back to itself.
#[verifier::rlimit(100)]
#[verifier::spinoff_prover]
pub proof fn lemma_render_attrs_reparse(
    s2: Seq<char>,
    pos: int,
    attrs: Seq<(Seq<char>, Seq<char>)>,
)
    requires
        0 <= pos,
        pos + render_attrs(attrs).len() + 1 <= s2.len(),
        s2.subrange(pos, pos + render_attrs(attrs).len() + 1) == render_attrs(attrs) + seq!['>'],
        wf_attrs(attrs),
    ensures
        parse_attrs(s2, pos) == (AttrsOut::AttrsDone {
            attrs,
            end: pos + render_attrs(attrs).len() + 1,
            empty_tag: false,
        }),
    decreases attrs.len(),
{
    let w = render_attrs(attrs) + seq!['>'];
    let wl = render_attrs(attrs).len() + 1;
    assert forall|j: int| pos <= j < pos + wl implies s2[j] == w[j - pos] by {
        assert(s2.subrange(pos, pos + wl)[j - pos] == w[j - pos]);
    }
    if attrs.len() == 0 {
        assert(s2[pos] == '>');
        lemma_find_non_ws_determined(s2, pos, pos);
        assert(attrs =~= Seq::<(Seq<char>, Seq<char>)>::empty());
    } else {
        let a = attrs[0];
        let rest = attrs.drop_first();
        let klen = a.0.len() as int;
        let vlen = a.1.len() as int;
        let q = quote_for(a.1);
        assert(wf_attr(a));
        assert(render_attrs(attrs) == render_attr(a) + render_attrs(rest));
        assert(render_attr(a).len() == klen + vlen + 4);
        assert(s2[pos] == ' ') by {
            assert(w[0] == ' ');
        }
        assert forall|jj: int| 0 <= jj < klen implies s2[pos + 1 + jj] == a.0[jj] by {
            assert(w[1 + jj] == a.0[jj]);
        }
        assert(s2[pos + 1 + klen] == '=') by {
            assert(w[1 + klen] == '=');
        }
        assert(s2[pos + 2 + klen] == q) by {
            assert(w[2 + klen] == q);
        }
        assert forall|jj: int| 0 <= jj < vlen implies s2[pos + 3 + klen + jj] == a.1[jj] by {
            assert(w[3 + klen + jj] == a.1[jj]);
        }
        assert(s2[pos + 3 + klen + vlen] == q) by {
            assert(w[3 + klen + vlen] == q);
        }
        assert(!is_ws(a.0[0]) && !is_attr_stop(a.0[0]));
        lemma_find_non_ws_determined(s2, pos, pos + 1);
        assert(s2[pos + 1] == a.0[0]);
        assert(s2[pos + 1] != '>' && s2[pos + 1] != '/');
        assert forall|jj: int| pos + 1 <= jj < pos + 1 + klen implies !is_attr_stop(s2[jj]) by {
            assert(s2[jj] == a.0[jj - pos - 1]);
        }
        lemma_find_attr_stop_determined(s2, pos + 1, pos + 1 + klen);
        assert(s2.subrange(pos + 1, pos + 1 + klen) =~= a.0);
        lemma_find_non_ws_determined(s2, pos + 1 + klen, pos + 1 + klen);
        lemma_find_non_ws_determined(s2, pos + 2 + klen, pos + 2 + klen);
        assert(q == '"' || q == '\'');
        assert forall|jj: int| 0 <= jj < vlen implies a.1[jj] != q by {
            if q == '"' {
                crate::text::lemma_find_char(a.1, 0, '"');
            } else {
                crate::text::lemma_find_char(a.1, 0, '\'');
            }
        }
        assert forall|jj: int| pos + 3 + klen <= jj < pos + 3 + klen + vlen implies s2[jj]
            != q by {
            assert(s2[jj] == a.1[jj - pos - 3 - klen]);
        }
        crate::text::lemma_find_char_determined(
            s2,
            pos + 3 + klen,
            pos + 3 + klen + vlen,
            q,
        );
        assert(s2.subrange(pos + 3 + klen, pos + 3 + klen + vlen) =~= a.1);
        let pos2 = pos + 4 + klen + vlen;
        assert(wf_attrs(rest)) by {
            assert forall|idx: int| 0 <= idx < rest.len() implies wf_attr(
                #[trigger] rest[idx],
            ) by {
                assert(rest[idx] == attrs[idx + 1]);
            }
        }
        assert(s2.subrange(pos2, pos2 + render_attrs(rest).len() + 1) =~= render_attrs(rest)
            + seq!['>']) by {
            assert forall|jj: int| 0 <= jj < render_attrs(rest).len() + 1 implies s2.subrange(
                pos2,
                pos2 + render_attrs(rest).len() + 1,
            )[jj] == (render_attrs(rest) + seq!['>'])[jj] by {
                assert(s2[pos2 + jj] == w[4 + klen + vlen + jj]);
            }
        }
        lemma_render_attrs_reparse(s2, pos2, rest);
        assert(seq![(s2.subrange(pos + 1, pos + 1 + klen), s2.subrange(
            pos + 3 + klen,
            pos + 3 + klen + vlen,
        ))] + rest =~= attrs);
    }
}

/// A rendered start tag scans back to itself, wherever it sits.
pub proof fn lemma_render_start_reparse(
    s2: Seq<char>,
    i2: int,
    name: Seq<char>,
    attrs: Seq<(Seq<char>, Seq<char>)>,
)
    requires
        0 <= i2,
        i2 + render_start(name, attrs).len() <= s2.len(),
        s2.subrange(i2, i2 + render_start(name, attrs).len()) == render_start(name, attrs),
        wf_name(name),
        wf_attrs(attrs),
    ensures
        next_event(s2, i2) == (Step::Next {
            e: Ev::Start { name, attrs, raw: render_start(name, attrs) },
            at: i2 + render_start(name, attrs).len(),
        }),
{
    let w = render_start(name, attrs);
    let wl = w.len();
    let nlen = name.len() as int;
    assert forall|j: int| i2 <= j < i2 + wl implies s2[j] == w[j - i2] by {
        assert(s2.subrange(i2, i2 + wl)[j - i2] == w[j - i2]);
    }
    assert(wl == nlen + render_attrs(attrs).len() + 2);
    assert(s2[i2] == '<') by {
        assert(w[0] == '<');
    }
    assert forall|jj: int| 0 <= jj < nlen implies s2[i2 + 1 + jj] == name[jj] by {
        assert(w[1 + jj] == name[jj]);
    }
    assert(s2[i2 + 1] == name[0]);
    assert(!matches_at(s2, i2, comment_open())) by {
        if matches_at(s2, i2, comment_open()) {
            lemma_matches_at_iff(s2, i2, comment_open());
            assert(s2[i2 + 1] == comment_open()[1]);
        }
    }
    assert(i2 + 1 < s2.len());
    assert(s2[i2 + 1] != '!' && s2[i2 + 1] != '?' && s2[i2 + 1] != '/');
    // the name runs to its stopping character: `>` for a bare tag, the
    // blank before the first attribute otherwise
    let stop_c: char = if attrs.len() == 0 {
        '>'
    } else {
        ' '
    };
    assert(s2[i2 + 1 + nlen] == stop_c) by {
        if attrs.len() == 0 {
            assert(w[1 + nlen] == '>');
        } else {
            assert(render_attrs(attrs) == render_attr(attrs[0]) + render_attrs(
                attrs.drop_first(),
            ));
            assert(w[1 + nlen] == ' ');
        }
    }
    assert(is_name_stop(s2[i2 + 1 + nlen]));
    assert forall|jj: int| i2 + 1 <= jj < i2 + 1 + nlen implies !is_name_stop(s2[jj]) by {
        assert(s2[jj] == name[jj - i2 - 1]);
    }
    lemma_find_name_stop_determined(s2, i2 + 1, i2 + 1 + nlen);
    assert(s2.subrange(i2 + 1, i2 + 1 + nlen) =~= name);
    let pos = i2 + 1 + nlen;
    assert(s2.subrange(pos, pos + render_attrs(attrs).len() + 1) =~= render_attrs(attrs)
        + seq!['>']) by {
        assert forall|jj: int| 0 <= jj < render_attrs(attrs).len() + 1 implies s2.subrange(
            pos,
            pos + render_attrs(attrs).len() + 1,
        )[jj] == (render_attrs(attrs) + seq!['>'])[jj] by {
            assert(s2[pos + jj] == w[1 + nlen + jj]);
        }
    }
    lemma_render_attrs_reparse(s2, pos, attrs);
    assert(s2.subrange(i2, i2 + wl) =~= render_start(name, attrs));
}

pub proof fn lemma_keep_attrs_wf(attrs: Seq<(Seq<char>, Seq<char>)>, key: Seq<char>)
    requires
        wf_attrs(attrs),
    ensures
        wf_attrs(keep_attrs(attrs, key)),
    decreases attrs.len(),
{
    if attrs.len() > 0 {
        assert(wf_attrs(attrs.drop_first())) by {
            assert forall|idx: int| 0 <= idx < attrs.drop_first().len() implies wf_attr(
                #[trigger] attrs.drop_first()[idx],
            ) by {
                assert(attrs.drop_first()[idx] == attrs[idx + 1]);
            }
        }
        lemma_keep_attrs_wf(attrs.drop_first(), key);
        if attrs[0].0 != key {
            let kept = seq![attrs[0]] + keep_attrs(attrs.drop_first(), key);
            assert forall|idx: int| 0 <= idx < kept.len() implies wf_attr(
                #[trigger] kept[idx],
            ) by {
                if idx == 0 {
                    assert(kept[0] == attrs[0]);
                } else {
                    assert(kept[idx] == keep_attrs(attrs.drop_first(), key)[idx - 1]);
                }
            }
        }
    }
}

/// How a rewritten stream may differ from the scanned one: an event is
/// either kept as it stands, or it is a start tag re-rendered with a
/// well-formed attribute list under its own name.
pub open spec fn rerender_ok(e: Ev, x: Ev) -> bool {
    ||| x == e
    ||| {
        &&& e is Start
        &&& wf_name(ev_name(e))
        &&& wf_attrs(ev_attrs(x))
        &&& x == (Ev::Start {
            name: ev_name(e),
            attrs: ev_attrs(x),
            raw: render_start(ev_name(e), ev_attrs(x)),
        })
    }
}

/// Every start tag of a scanned stream carries a well-formed name and
/// attribute list.
pub proof fn lemma_stream_wf(s: Seq<char>, i: int, evts: Seq<Ev>, k: int)
    requires
        0 <= i <= s.len(),
        0 <= k <= evts.len(),
        toks_from(s, i) == (TokOut::Toks { evts: evts.skip(k) }),
    ensures
        forall|idx: int|
            k <= idx < evts.len() && (#[trigger] evts[idx]) is Start ==> wf_name(
                ev_name(evts[idx]),
            ) && wf_attrs(ev_attrs(evts[idx])),
    decreases evts.len() - k,
{
    if k < evts.len() {
        assert(evts.skip(k).len() > 0);
        lemma_next_event_bounds(s, i);
        match next_event(s, i) {
            Step::AtEnd => {
                assert(toks_from(s, i) == (TokOut::Toks { evts: Seq::<Ev>::empty() }));
                assert(evts.skip(k) =~= Seq::<Ev>::empty());
            },
            Step::Bad { at } => {
                assert(toks_from(s, i) == (TokOut::TokErr { at }));
            },
            Step::Next { e, at } => {
                assert(i < at <= s.len());
                match toks_from(s, at) {
                    TokOut::TokErr { at: a2 } => {
                        assert(toks_from(s, i) == (TokOut::TokErr { at: a2 }));
                    },
                    TokOut::Toks { evts: rest } => {
                        assert(toks_from(s, i) == (TokOut::Toks { evts: seq![e] + rest }));
                        assert((seq![e] + rest)[0] == e);
                        assert(evts.skip(k)[0] == evts[k]);
                        assert(e == evts[k]);
                        assert(rest =~= evts.skip(k + 1)) by {
                            assert((seq![e] + rest).drop_first() =~= rest);
                            assert(evts.skip(k).drop_first() =~= evts.skip(k + 1));
                        }
                        assert(toks_from(s, at) == (TokOut::Toks { evts: evts.skip(k + 1) }));
                        if e is Start {
                            lemma_start_event_wf(s, i);
                        }
                        lemma_stream_wf(s, at, evts, k + 1);
                    },
                }
            },
        }
    }
}

/// A rewritten event stream, written out, scans back to exactly those
/// events.
#[verifier::rlimit(100)]
#[verifier::spinoff_prover]
proof fn lemma_substream_reparse(
    s: Seq<char>,
    i: int,
    out: Seq<char>,
    o: int,
    evts: Seq<Ev>,
    xs: Seq<Ev>,
    k: int,
)
    requires
        0 <= i <= s.len(),
        0 <= o <= out.len(),
        0 <= k <= evts.len(),
        xs.len() == evts.len(),
        forall|idx: int| 0 <= idx < evts.len() ==> rerender_ok(#[trigger] evts[idx], xs[idx]),
        toks_from(s, i) == (TokOut::Toks { evts: evts.skip(k) }),
        out.subrange(o, out.len() as int) == concat_raw(xs.skip(k)),
    ensures
        toks_from(out, o) == (TokOut::Toks { evts: xs.skip(k) }),
    decreases evts.len() - k,
{
    if k == evts.len() {
        assert(evts.skip(k) =~= Seq::<Ev>::empty());
        assert(xs.skip(k) =~= Seq::<Ev>::empty());
        assert(concat_raw(xs.skip(k)) == Seq::<char>::empty());
        assert(out.subrange(o, out.len() as int).len() == 0);
        assert(o == out.len());
        assert(toks_from(out, o) == (TokOut::Toks { evts: Seq::<Ev>::empty() }));
        assert(Seq::<Ev>::empty() =~= xs.skip(k));
    } else {
        assert(evts.skip(k).len() > 0);
        lemma_next_event_bounds(s, i);
        match next_event(s, i) {
            Step::AtEnd => {
                assert(toks_from(s, i) == (TokOut::Toks { evts: Seq::<Ev>::empty() }));
                assert(evts.skip(k) =~= Seq::<Ev>::empty());
            },
            Step::Bad { at } => {
                assert(toks_from(s, i) == (TokOut::TokErr { at }));
            },
            Step::Next { e, at } => {
                assert(i < at <= s.len());
                match toks_from(s, at) {
                    TokOut::TokErr { at: a2 } => {
                        assert(toks_from(s, i) == (TokOut::TokErr { at: a2 }));
                    },
                    TokOut::Toks { evts: rest } => {
                        assert(toks_from(s, i) == (TokOut::Toks { evts: seq![e] + rest }));
                        assert((seq![e] + rest)[0] == e);
                        assert(evts.skip(k)[0] == evts[k]);
                        assert(e == evts[k]);
                        assert(rest =~= evts.skip(k + 1)) by {
                            assert((seq![e] + rest).drop_first() =~= rest);
                            assert(evts.skip(k).drop_first() =~= evts.skip(k + 1));
                        }
                        assert(toks_from(s, at) == (TokOut::Toks { evts: evts.skip(k + 1) }));
                        let raw = ev_raw(e);
                        assert(raw == s.subrange(i, at));
                        let l = at - i;
                        assert(raw.len() == l);
                        assert(xs.skip(k)[0] == xs[k]);
                        assert(xs.skip(k).drop_first() =~= xs.skip(k + 1));
                        assert(concat_raw(xs.skip(k)) == ev_raw(xs[k]) + concat_raw(
                            xs.skip(k + 1),
                        )) by {
                            assert(concat_raw(xs.skip(k).drop_first()) == concat_raw(
                                xs.skip(k + 1),
                            ));
                        }
                        let rawx = ev_raw(xs[k]);
                        let lx = rawx.len() as int;
                        assert(out.subrange(o, out.len() as int).len() == lx + concat_raw(
                            xs.skip(k + 1),
                        ).len());
                        assert(o + lx <= out.len());
                        assert forall|j: int| o <= j < o + lx implies out[j] == rawx[j - o] by {
                            assert(out.subrange(o, out.len() as int)[j - o] == (rawx + concat_raw(
                                xs.skip(k + 1),
                            ))[j - o]);
                        }
                        assert(out.subrange(o + lx, out.len() as int) =~= concat_raw(
                            xs.skip(k + 1),
                        )) by {
                            assert forall|j: int|
                                #![trigger concat_raw(xs.skip(k + 1))[j]]
                                0 <= j < out.len() - o - lx implies out.subrange(
                                o + lx,
                                out.len() as int,
                            )[j] == concat_raw(xs.skip(k + 1))[j] by {
                                assert(out[o + lx + j] == out.subrange(o, out.len() as int)[lx
                                    + j]);
                                assert((rawx + concat_raw(xs.skip(k + 1)))[lx + j] == concat_raw(
                                    xs.skip(k + 1),
                                )[j]);
                            }
                        }
                        assert(rerender_ok(evts[k], xs[k]));
                        if xs[k] != e {
                            assert(e is Start);
                            let name = ev_name(e);
                            let na = ev_attrs(xs[k]);
                            assert(xs[k] == (Ev::Start {
                                name,
                                attrs: na,
                                raw: render_start(name, na),
                            }));
                            assert(rawx == render_start(name, na));
                            assert(out.subrange(o, o + lx) =~= rawx);
                            lemma_render_start_reparse(out, o, name, na);
                            assert(next_event(out, o) == (Step::Next { e: xs[k], at: o + lx }));
                        } else {
                            assert(rawx == raw && lx == l);
                            assert(win_eq(s, i, out, o, l)) by {
                                assert forall|j: int| o <= j < o + l implies s[j - (o - i)]
                                    == out[j] by {
                                    assert(out[j] == rawx[j - o]);
                                    assert(raw[j - o] == s[i + (j - o)]);
                                }
                            }
                            if s[i] != '<' && o + l < out.len() {
                                assert(concat_raw(xs.skip(k + 1)).len() > 0);
                                assert(k + 1 < evts.len()) by {
                                    if k + 1 == evts.len() {
                                        assert(xs.skip(k + 1) =~= Seq::<Ev>::empty());
                                        assert(concat_raw(xs.skip(k + 1)) == Seq::<
                                            char,
                                        >::empty());
                                    }
                                }
                                assert(evts.skip(k + 1).len() > 0);
                                lemma_next_event_bounds(s, at);
                                assert(at < s.len()) by {
                                    if at == s.len() {
                                        assert(next_event(s, at) is AtEnd);
                                        assert(toks_from(s, at) == (TokOut::Toks {
                                            evts: Seq::<Ev>::empty(),
                                        }));
                                    }
                                }
                                assert(s[at] == '<') by {
                                    crate::text::lemma_find_char(s, i, '<');
                                }
                                let at2 = match next_event(s, at) {
                                    Step::Next { at: a3, .. } => a3,
                                    _ => 0,
                                };
                                assert(next_event(s, at) is Next) by {
                                    match next_event(s, at) {
                                        Step::AtEnd => {
                                            assert(toks_from(s, at) == (TokOut::Toks {
                                                evts: Seq::<Ev>::empty(),
                                            }));
                                        },
                                        Step::Bad { at: a4 } => {
                                            assert(toks_from(s, at) == (TokOut::TokErr {
                                                at: a4,
                                            }));
                                        },
                                        Step::Next { .. } => {},
                                    }
                                }
                                assert(i < at);
                                let e2 = match next_event(s, at) {
                                    Step::Next { e: e2v, .. } => e2v,
                                    _ => e,
                                };
                                assert(e2 == evts[k + 1]) by {
                                    match toks_from(s, at2) {
                                        TokOut::Toks { evts: rest2 } => {
                                            if at < at2 <= s.len() {
                                                assert(toks_from(s, at) == (TokOut::Toks {
                                                    evts: seq![e2] + rest2,
                                                }));
                                                assert((seq![e2] + rest2)[0] == e2);
                                                assert(evts.skip(k + 1)[0] == evts[k + 1]);
                                            }
                                        },
                                        TokOut::TokErr { at: a5 } => {
                                            if at < at2 <= s.len() {
                                                assert(toks_from(s, at) == (TokOut::TokErr {
                                                    at: a5,
                                                }));
                                            }
                                        },
                                    }
                                }
                                assert(ev_raw(evts[k + 1])[0] == s[at]) by {
                                    assert(ev_raw(e2) == s.subrange(at, at2));
                                }
                                assert(ev_raw(xs[k + 1])[0] == '<') by {
                                    assert(rerender_ok(evts[k + 1], xs[k + 1]));
                                    if xs[k + 1] != evts[k + 1] {
                                        assert(ev_raw(xs[k + 1]) == render_start(
                                            ev_name(evts[k + 1]),
                                            ev_attrs(xs[k + 1]),
                                        ));
                                    }
                                }
                                assert(out[o + l] == ev_raw(xs[k + 1])[0]) by {
                                    assert(xs.skip(k + 1)[0] == xs[k + 1]);
                                    assert(concat_raw(xs.skip(k + 1)) == ev_raw(xs[k + 1])
                                        + concat_raw(xs.skip(k + 1).drop_first()));
                                    assert(ev_raw(xs[k + 1]).len() > 0) by {
                                        assert(rerender_ok(evts[k + 1], xs[k + 1]));
                                        if xs[k + 1] == evts[k + 1] {
                                            assert(ev_raw(xs[k + 1]) == s.subrange(at, at2));
                                            assert(at < at2);
                                        } else {
                                            assert(ev_raw(xs[k + 1]) == render_start(
                                                ev_name(evts[k + 1]),
                                                ev_attrs(xs[k + 1]),
                                            ));
                                        }
                                    }
                                    assert(out[o + l] == out.subrange(o + lx, out.len() as int)[0]);
                                }
                            }
                            lemma_event_shift(s, i, out, o);
                            assert(next_event(out, o) == (Step::Next { e: xs[k], at: o + lx }));
                        }
                        assert(lx >= 1) by {
                            if xs[k] != e {
                                assert(rawx == render_start(ev_name(e), ev_attrs(xs[k])));
                            }
                        }
                        lemma_substream_reparse(s, at, out, o + lx, evts, xs, k + 1);
                        assert(toks_from(out, o) == (TokOut::Toks {
                            evts: seq![xs[k]] + xs.skip(k + 1),
                        }));
                        assert(seq![xs[k]] + xs.skip(k + 1) =~= xs.skip(k));
                    },
                }
            },
        }
    }
}

/// What the exchange writes reads back as exactly the exchanged events:
/// the rewritten document is well formed, and scanning it recovers the
/// exchanged stream, provided the new key and value are ones the
/// renderer can write (a nonempty key without stopping characters; a
/// value that avoids at least one of the two quote characters).
pub proof fn lemma_exchange_round_trip(
    s: Seq<char>,
    path: Seq<Seq<char>>,
    key: Seq<char>,
    val: Seq<char>,
)
    requires
        doc_ok(s),
        wf_attr_key(key),
        wf_attr_value(val),
    ensures
        ({
            let xs = exchanged(doc_events(s), path, key, val);
            doc_ok(concat_raw(xs)) && doc_events(concat_raw(xs)) == xs
        }),
{
    let evts = doc_events(s);
    let xs = exchanged(evts, path, key, val);
    let out = concat_raw(xs);
    assert(toks_from(s, 0) == (TokOut::Toks { evts: evts.skip(0) })) by {
        match toks_from(s, 0) {
            TokOut::Toks { evts: e0 } => {
                assert(e0.skip(0) =~= e0);
            },
            TokOut::TokErr { .. } => {},
        }
    }
    assert(out.subrange(0, out.len() as int) =~= concat_raw(xs.skip(0))) by {
        assert(xs.skip(0) =~= xs);
        assert(out.subrange(0, out.len() as int) =~= out);
    }
    lemma_stream_wf(s, 0, evts, 0);
    assert forall|idx: int| 0 <= idx < evts.len() implies rerender_ok(
        #[trigger] evts[idx],
        xs[idx],
    ) by {
        if is_match(evts, path, idx) {
            let e = evts[idx];
            let na = keep_attrs(ev_attrs(e), key).push((key, val));
            assert(xs[idx] == set_attr(e, key, val));
            assert(wf_attrs(na)) by {
                lemma_keep_attrs_wf(ev_attrs(e), key);
                assert forall|j: int| 0 <= j < na.len() implies wf_attr(#[trigger] na[j]) by {
                    if j < na.len() - 1 {
                        assert(na[j] == keep_attrs(ev_attrs(e), key)[j]);
                    } else {
                        assert(na[j] == (key, val));
                    }
                }
            }
            assert(ev_attrs(xs[idx]) == na);
        } else {
            assert(xs[idx] == evts[idx]);
        }
    }
    lemma_substream_reparse(s, 0, out, 0, evts, xs, 0);
    assert(xs.skip(0) =~= xs);
    assert(toks_from(out, 0) == (TokOut::Toks { evts: xs }));
}

/// A replaced attribute value stays quotable when the replacement text
/// holds no quote character.
pub proof fn lemma_replace_value_wf(v: Seq<char>, from: Seq<char>, to: Seq<char>)
    requires
        from.len() >= 1,
        wf_attr_value(v),
        find_char(to, 0, '"') == -1,
        find_char(to, 0, '\'') == -1,
    ensures
        wf_attr_value(crate::text::replace_all_spec(v, from, to)),
{
    let r = crate::text::replace_all_spec(v, from, to);
    if find_char(v, 0, '"') == -1 {
        lemma_find_char(v, 0, '"');
        lemma_find_char(to, 0, '"');
        crate::text::lemma_replace_from_no_char(v, 0, from, to, '"');
        crate::text::lemma_find_char_none(r, 0, '"');
    } else {
        lemma_find_char(v, 0, '\'');
        lemma_find_char(to, 0, '\'');
        crate::text::lemma_replace_from_no_char(v, 0, from, to, '\'');
        crate::text::lemma_find_char_none(r, 0, '\'');
    }
}

/// What the value substitution writes reads back as exactly the
/// substituted events, provided the replacement text holds no quote
/// character.
pub proof fn lemma_substitute_round_trip(
    s: Seq<char>,
    path: Seq<Seq<char>>,
    key: Seq<char>,
    from: Seq<char>,
    to: Seq<char>,
)
    requires
        doc_ok(s),
        from.len() >= 1,
        find_char(to, 0, '"') == -1,
        find_char(to, 0, '\'') == -1,
    ensures
        ({
            let xs = substituted(doc_events(s), path, key, from, to);
            doc_ok(concat_raw(xs)) && doc_events(concat_raw(xs)) == xs
        }),
{
    let evts = doc_events(s);
    let xs = substituted(evts, path, key, from, to);
    let out = concat_raw(xs);
    assert(toks_from(s, 0) == (TokOut::Toks { evts: evts.skip(0) })) by {
        match toks_from(s, 0) {
            TokOut::Toks { evts: e0 } => {
                assert(e0.skip(0) =~= e0);
            },
            TokOut::TokErr { .. } => {},
        }
    }
    assert(out.subrange(0, out.len() as int) =~= concat_raw(xs.skip(0))) by {
        assert(xs.skip(0) =~= xs);
        assert(out.subrange(0, out.len() as int) =~= out);
    }
    lemma_stream_wf(s, 0, evts, 0);
    assert forall|idx: int| 0 <= idx < evts.len() implies rerender_ok(
        #[trigger] evts[idx],
        xs[idx],
    ) by {
        if is_match(evts, path, idx) && attr_lookup(ev_attrs(evts[idx]), key) is Some {
            let e = evts[idx];
            let na = subst_attrs(ev_attrs(e), key, from, to);
            assert(xs[idx] == subst_ev(e, key, from, to));
            assert(wf_attrs(na)) by {
                assert forall|j: int| 0 <= j < na.len() implies wf_attr(#[trigger] na[j]) by {
                    assert(wf_attr(ev_attrs(e)[j]));
                    if ev_attrs(e)[j].0 == key {
                        lemma_replace_value_wf(ev_attrs(e)[j].1, from, to);
                        assert(na[j] == (
                            ev_attrs(e)[j].0,
                            crate::text::replace_all_spec(ev_attrs(e)[j].1, from, to),
                        ));
                    } else {
                        assert(na[j] == ev_attrs(e)[j]);
                    }
                }
            }
            assert(ev_attrs(xs[idx]) == na);
        } else {
            assert(xs[idx] == evts[idx]);
        }
    }
    lemma_substream_reparse(s, 0, out, 0, evts, xs, 0);
    assert(xs.skip(0) =~= xs);
    assert(toks_from(out, 0) == (TokOut::Toks { evts: xs }));
}

/// The substitution leaves the cursor's course untouched.
pub proof fn lemma_subst_cursor(
    evts: Seq<Ev>,
    path: Seq<Seq<char>>,
    key: Seq<char>,
    from: Seq<char>,
    to: Seq<char>,
    i: int,
)
    requires
        0 <= i <= evts.len(),
    ensures
        cursor_at(substituted(evts, path, key, from, to), path, i) == cursor_at(evts, path, i),
    decreases i,
{
    if i > 0 {
        lemma_subst_cursor(evts, path, key, from, to, i - 1);
    }
}

/// The substitution matches exactly the elements the original matched.
pub proof fn lemma_subst_same_matches(
    evts: Seq<Ev>,
    path: Seq<Seq<char>>,
    key: Seq<char>,
    from: Seq<char>,
    to: Seq<char>,
)
    ensures
        forall|i: int|
            is_match(substituted(evts, path, key, from, to), path, i) == is_match(evts, path, i),
{
    assert forall|i: int|
        is_match(substituted(evts, path, key, from, to), path, i) == is_match(
            evts,
            path,
            i,
        ) by {
        if 0 <= i < evts.len() {
            lemma_subst_cursor(evts, path, key, from, to, i);
        }
    }
}

/// Substitution rewrites exactly the looked-up value.
pub proof fn lemma_lookup_subst(
    attrs: Seq<(Seq<char>, Seq<char>)>,
    key: Seq<char>,
    from: Seq<char>,
    to: Seq<char>,
)
    ensures
        attr_lookup(subst_attrs(attrs, key, from, to), key) == (match attr_lookup(attrs, key) {
            Some(v) => Some(crate::text::replace_all_spec(v, from, to)),
            None => None::<Seq<char>>,
        }),
    decreases attrs.len(),
{
    if attrs.len() > 0 {
        let sa = subst_attrs(attrs, key, from, to);
        assert(sa[0].0 == attrs[0].0);
        assert(sa.drop_first() =~= subst_attrs(attrs.drop_first(), key, from, to)) by {
            assert forall|j: int| 0 <= j < sa.len() - 1 implies sa.drop_first()[j] == subst_attrs(
                attrs.drop_first(),
                key,
                from,
                to,
            )[j] by {
                assert(sa.drop_first()[j] == sa[j + 1]);
                assert(attrs.drop_first()[j] == attrs[j + 1]);
            }
        }
        lemma_lookup_subst(attrs.drop_first(), key, from, to);
    }
}

/// After the substitution, finding the same key at the same path yields
/// the original values, each with every occurrence of `from` replaced by
/// `to`.
pub proof fn lemma_substitute_then_find(
    evts: Seq<Ev>,
    path: Seq<Seq<char>>,
    key: Seq<char>,
    from: Seq<char>,
    to: Seq<char>,
    n: int,
)
    requires
        0 <= n <= evts.len(),
    ensures
        find_upto(substituted(evts, path, key, from, to), path, key, n) =~= find_upto(
            evts,
            path,
            key,
            n,
        ).map_values(|v: Seq<char>| crate::text::replace_all_spec(v, from, to)),
    decreases n,
{
    let xs = substituted(evts, path, key, from, to);
    if n > 0 {
        lemma_substitute_then_find(evts, path, key, from, to, n - 1);
        lemma_subst_same_matches(evts, path, key, from, to);
        if is_match(evts, path, n - 1) {
            lemma_lookup_subst(ev_attrs(evts[n - 1]), key, from, to);
            if attr_lookup(ev_attrs(evts[n - 1]), key) is Some {
                assert(ev_attrs(xs[n - 1]) == subst_attrs(ev_attrs(evts[n - 1]), key, from, to));
            } else {
                assert(xs[n - 1] == evts[n - 1]);
            }
        }
    }
}

/// The authority-style rewrite, on the documents the engine reads and
/// writes: after the substitution, reading the same attribute at the
/// same path yields the old values with every occurrence of `from`
/// replaced by `to`; an occurrence-free value reads back unchanged.
pub proof fn lemma_substitute_then_find_document(
    s: Seq<char>,
    path: Seq<Seq<char>>,
    key: Seq<char>,
    from: Seq<char>,
    to: Seq<char>,
)
    requires
        doc_ok(s),
        from.len() >= 1,
        find_char(to, 0, '"') == -1,
        find_char(to, 0, '\'') == -1,
    ensures
        ({
            let evts = doc_events(s);
            let out = concat_raw(substituted(evts, path, key, from, to));
            doc_ok(out) && find_values(doc_events(out), path, key) =~= find_values(
                evts,
                path,
                key,
            ).map_values(|v: Seq<char>| crate::text::replace_all_spec(v, from, to))
        }),
{
    lemma_substitute_round_trip(s, path, key, from, to);
    let evts = doc_events(s);
    lemma_substitute_then_find(evts, path, key, from, to, evts.len() as int);
}

/// Exchanging and then finding the same key at the same path, on the
/// documents the engine reads and writes, yields the new value once for
/// every matched element of the original document.
pub proof fn lemma_exchange_then_find_document(
    s: Seq<char>,
    path: Seq<Seq<char>>,
    key: Seq<char>,
    val: Seq<char>,
)
    requires
        doc_ok(s),
        wf_attr_key(key),
        wf_attr_value(val),
    ensures
        ({
            let evts = doc_events(s);
            let out = concat_raw(exchanged(evts, path, key, val));
            doc_ok(out) && find_values(doc_events(out), path, key) =~= Seq::new(
                match_count(evts, path, evts.len() as int),
                |idx: int| val,
            )
        }),
{
    lemma_exchange_round_trip(s, path, key, val);
    let evts = doc_events(s);
    lemma_exchange_then_find(evts, path, key, val, evts.len() as int);
}

/// Exchanging twice with the same value writes the identical document
/// both times.
pub proof fn lemma_exchange_idempotent_document(
    s: Seq<char>,
    path: Seq<Seq<char>>,
    key: Seq<char>,
    val: Seq<char>,
)
    requires
        doc_ok(s),
        wf_attr_key(key),
        wf_attr_value(val),
    ensures
        ({
            let once = concat_raw(exchanged(doc_events(s), path, key, val));
            let twice = concat_raw(exchanged(doc_events(once), path, key, val));
            doc_ok(once) && twice == once
        }),
{
    lemma_exchange_round_trip(s, path, key, val);
    let evts = doc_events(s);
    let xs = exchanged(evts, path, key, val);
    lemma_exchange_idempotent(evts, path, key, val);
    assert(exchanged(doc_events(concat_raw(xs)), path, key, val) == xs);
}

/// The events of a well-formed document concatenate back to it.
pub proof fn lemma_tokenize_preserves_content(s: Seq<char>)
    requires
        doc_ok(s),
    ensures
        concat_raw(doc_events(s)) == s,
{
    lemma_toks_content(s, 0);
    assert(s.subrange(0, s.len() as int) =~= s);
}

} // verus!
