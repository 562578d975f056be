//! Documents that the parser reads without rewriting: those without `&` and
//! `:` whose only white space are single spaces that touch no quote. Of such a
//! document the parser changes no byte, so every name, value and text of the
//! tree is a slice of the input.

use vstd::prelude::*;
use crate::chartype::{Chartype, is_space};
use crate::defs::XmlIdx;
use crate::machine::{
    APOSTROPHE,
    LESS_THAN,
    Machine,
    ParseOptions,
    QUOTE,
    State,
    stored_name,
    stored_text,
};
use crate::parser::{parsed, preflight, unparsed};
use crate::progress::{lemma_step, lemma_trimmed_end};
use crate::scan::{Stop, find_from, lemma_first_stop};
use crate::text::{
    AMPERSAND,
    CARRIAGE_RETURN,
    COLON,
    SPACE,
    attr_value,
    gap,
    lemma_line_run,
    lemma_local_name_plain,
    lemma_overwrite_same,
    lemma_pcdata_plain,
    line_text,
    trimmed_end,
};

verus! {

/// Whether `b` opens and closes attribute values.
pub open spec fn is_quote(b: u8) -> bool {
    b == APOSTROPHE || b == QUOTE
}

/// `s` holds no `&`, no `:` and no white space but single spaces, none of
/// which stands next to a quote.
pub open spec fn tidy(s: Seq<u8>) -> bool {
    &&& forall|j: int|
        0 <= j < s.len() ==> (#[trigger] s[j]) != AMPERSAND && s[j] != COLON && s[j] != 9 && s[j]
            != 10 && s[j] != CARRIAGE_RETURN
    &&& forall|j: int|
        0 <= j < s.len() - 1 ==> !((#[trigger] s[j]) == SPACE && (s[j + 1] == SPACE || is_quote(
            s[j + 1],
        )))
    &&& forall|j: int| 0 < j < s.len() ==> !(is_quote(s[j - 1]) && (#[trigger] s[j]) == SPACE)
}

/// In a tidy buffer, a value that neither starts nor ends with a space stands for itself.
pub proof fn lemma_attr_tidy(s: Seq<u8>, from: int, end: int, started: bool)
    requires
        tidy(s),
        0 <= from <= end <= s.len(),
        from < end ==> s[end - 1] != SPACE,
        started || from == end || s[from] != SPACE,
    ensures
        attr_value(s, from, end, started, false) == s.subrange(from, end),
    decreases end - from,
{
    if from >= end {
        assert(s.subrange(from, end) =~= Seq::<u8>::empty());
    } else if is_space(s[from]) {
        assert(s[from] == SPACE);
        assert(s[from + 1] != SPACE);
        assert(!is_space(s[from + 1]));
        assert(s[from + 1] != AMPERSAND);
        lemma_attr_tidy(s, from + 2, end, true);
        assert(attr_value(s, from, end, started, false) == attr_value(s, from + 1, end, true, true));
        assert(attr_value(s, from + 1, end, true, true) == gap(true) + seq![s[from + 1]]
            + attr_value(s, from + 2, end, true, false));
        assert(gap(true) + seq![s[from + 1]] + s.subrange(from + 2, end) =~= s.subrange(from, end));
    } else {
        assert(s[from] != AMPERSAND);
        lemma_attr_tidy(s, from + 1, end, true);
        assert(gap(false) + seq![s[from]] + s.subrange(from + 1, end) =~= s.subrange(from, end));
    }
}

/// In a tidy buffer, a text stands for itself.
pub proof fn lemma_text_tidy(s: Seq<u8>, from: int, end: int, options: ParseOptions)
    requires
        tidy(s),
        0 <= from <= end <= s.len(),
    ensures
        stored_text(s, from, end, options) == s.subrange(from, end),
{
    lemma_pcdata_plain(s, from, end);
    lemma_line_run(s, from, end, end);
    assert(s.subrange(from, end) + line_text(s, end, end) =~= s.subrange(from, end));
}

/// In a tidy buffer, a name stands for itself.
pub proof fn lemma_name_tidy(s: Seq<u8>, start: int, end: int, options: ParseOptions)
    requires
        tidy(s),
        0 <= start <= end <= s.len(),
    ensures
        stored_name(s, start, end, options) == s.subrange(start, end),
{
    lemma_local_name_plain(s, start, end);
}

/// A step leaves a tidy buffer as it was.
pub proof fn lemma_tidy_step(m: Machine)
    requires
        m.inv(),
        tidy(m.doc.xml),
        !(m.state is End),
    ensures
        m.step() matches Ok(next) ==> next.doc.xml == m.doc.xml,
{
    reveal(Machine::step);
    let xml = m.doc.xml;
    let len = m.len();
    match m.state {
        State::ReadTagOpen => {
            let start = m.pos;
            if start + 1 < len {
                lemma_first_stop(xml, start + 1, len, Stop::NotClass(Chartype::Symbol));
            }
            if let Some(end) = find_from(xml, start + 1, Stop::NotClass(Chartype::Symbol)) {
                lemma_name_tidy(xml, start, end, m.options);
                lemma_overwrite_same(xml, start, end);
            }
        },
        State::ReadTagClose => {
            let start = m.pos;
            if start < len {
                lemma_first_stop(xml, start, len, Stop::Class(Chartype::ParseCloseTag));
            }
            if let Some(end) = find_from(xml, start, Stop::Class(Chartype::ParseCloseTag)) {
                lemma_name_tidy(xml, start, end, m.options);
                lemma_overwrite_same(xml, start, end);
            }
        },
        State::ReadAttribute => {
            if m.pos < len {
                lemma_first_stop(xml, m.pos, len, Stop::NotClass(Chartype::Space));
            }
            if let Some(p) = find_from(xml, m.pos, Stop::NotClass(Chartype::Space)) {
                if p + 1 < len {
                    lemma_first_stop(xml, p + 1, len, Stop::NotClass(Chartype::Symbol));
                }
                if let Some(eq) = find_from(xml, p + 1, Stop::NotClass(Chartype::Symbol)) {
                    if eq + 2 < len {
                        lemma_first_stop(xml, eq + 2, len, Stop::Byte(xml[eq + 1]));
                    }
                    if let Some(quote) = find_from(xml, eq + 2, Stop::Byte(xml[eq + 1])) {
                        if is_quote(xml[eq + 1]) {
                            if eq + 2 < quote {
                                assert(xml[eq + 2] != SPACE);
                                assert(xml[quote - 1] != SPACE);
                            }
                            lemma_attr_tidy(xml, eq + 2, quote, false);
                            lemma_overwrite_same(xml, eq + 2, quote);
                            lemma_name_tidy(xml, p, eq, m.options);
                            lemma_overwrite_same(xml, p, eq);
                        }
                    }
                }
            }
        },
        State::ReadPCData => {
            if m.pos < len {
                lemma_first_stop(xml, m.pos, len, Stop::NotClass(Chartype::Space));
            }
            if let Some(start) = find_from(xml, m.pos, Stop::NotClass(Chartype::Space)) {
                lemma_first_stop(xml, start, len, Stop::Byte(LESS_THAN));
                if let Some(lt) = find_from(xml, start, Stop::Byte(LESS_THAN)) {
                    if lt > start {
                        lemma_trimmed_end(xml, start, lt);
                        let from = if m.options.trim_pcdata {
                            start
                        } else {
                            m.pos
                        };
                        let to = if m.options.trim_pcdata {
                            trimmed_end(xml, start, lt)
                        } else {
                            lt
                        };
                        lemma_text_tidy(xml, from, to, m.options);
                        lemma_overwrite_same(xml, from, to);
                    }
                }
            }
        },
        _ => {},
    }
}

/// The parser leaves a tidy buffer as it was.
pub proof fn lemma_tidy_run(m: Machine)
    requires
        m.inv(),
        tidy(m.doc.xml),
    ensures
        m.run() matches Ok(doc) ==> doc.xml == m.doc.xml,
    decreases m.measure(),
{
    if !(m.state is End) {
        lemma_step(m);
        lemma_tidy_step(m);
        if let Ok(next) = m.step() {
            lemma_tidy_run(next);
        }
    }
}

/// Parsing leaves a tidy input as it was: the buffer of the document is the
/// input, and every name, value and text of the tree is a slice of it.
pub proof fn lemma_tidy_parsed(xml: Seq<u8>, options: ParseOptions)
    requires
        tidy(xml),
    ensures
        parsed(xml, options) matches Ok(doc) ==> doc.xml == xml,
{
    if preflight(xml) is None {
        lemma_run_start(xml, options);
        lemma_tidy_run(Machine::initial(unparsed(xml), options));
    }
}

/// The parser starts with what holds between its steps.
pub proof fn lemma_run_start(xml: Seq<u8>, options: ParseOptions)
    requires
        xml.len() <= XmlIdx::MAX,
    ensures
        Machine::initial(unparsed(xml), options).inv(),
{
}

} // verus!
