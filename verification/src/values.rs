//! The values of a property as they stand in the text of a record: each in
//! square brackets, with a backslash before a closing bracket or a backslash
//! that belongs to the value.

use vstd::prelude::*;
use vstd::string::StrSliceExecFns;
use crate::tree::{texts, PropertyView};

verus! {

/// The state of reading the values of a property: the values read so far,
/// the characters of the value being read, whether a bracket is open, and
/// whether the last character was an escaping backslash.
pub struct Scan {
    pub values: Seq<Seq<char>>,
    pub current: Seq<char>,
    pub in_brackets: bool,
    pub escaped: bool,
}

/// The state before anything was read.
pub open spec fn scan_start() -> Scan {
    Scan { values: Seq::empty(), current: Seq::empty(), in_brackets: false, escaped: false }
}

/// The state after one more character. A character after a backslash
/// stands for itself. An opening bracket starts a value, and belongs to the
/// value inside one. A closing bracket ends the value.
pub open spec fn scan_step(s: Scan, c: char) -> Scan {
    if s.escaped {
        Scan { current: s.current.push(c), escaped: false, ..s }
    } else if c == '\\' {
        Scan { escaped: true, ..s }
    } else if c == '[' {
        if s.in_brackets {
            Scan { current: s.current.push(c), ..s }
        } else {
            Scan { in_brackets: true, ..s }
        }
    } else if c == ']' {
        Scan { values: s.values.push(s.current), current: Seq::empty(), in_brackets: false, ..s }
    } else {
        Scan { current: s.current.push(c), ..s }
    }
}

/// The state after a text, read from a given state.
pub open spec fn scan_from(s: Scan, text: Seq<char>) -> Scan
    decreases text.len(),
{
    if text.len() == 0 {
        s
    } else {
        scan_step(scan_from(s, text.drop_last()), text.last())
    }
}

/// The values in the text of a property, which starts with an identifier
/// of `skip` characters. A text shorter than that holds none.
pub open spec fn values_in(text: Seq<char>, skip: int) -> Seq<Seq<char>> {
    if 0 <= skip <= text.len() {
        scan_from(scan_start(), text.skip(skip)).values
    } else {
        Seq::empty()
    }
}

/// A value as it is written: with a backslash before each backslash and
/// each closing bracket.
pub open spec fn escaped(value: Seq<char>) -> Seq<char>
    decreases value.len(),
{
    if value.len() == 0 {
        Seq::empty()
    } else {
        let c = value.last();
        let head = escaped(value.drop_last());
        if c == '\\' || c == ']' {
            head.push('\\').push(c)
        } else {
            head.push(c)
        }
    }
}

/// The values of a property as they are written: each escaped, in its own
/// brackets.
pub open spec fn values_text(values: Seq<Seq<char>>) -> Seq<char>
    decreases values.len(),
{
    if values.len() == 0 {
        Seq::empty()
    } else {
        values_text(values.drop_last()) + seq!['['] + escaped(values.last()) + seq![']']
    }
}

/// A property as it is written: its identifier, then its values.
pub open spec fn property_text(property: PropertyView) -> Seq<char> {
    property.identifier + values_text(property.values)
}

/// The properties of a node as they are written, one after the other.
pub open spec fn properties_text(properties: Seq<PropertyView>) -> Seq<char>
    decreases properties.len(),
{
    if properties.len() == 0 {
        Seq::empty()
    } else {
        properties_text(properties.drop_last()) + property_text(properties.last())
    }
}

/// Reading a text in two parts is reading the whole.
pub proof fn lemma_scan_parts(s: Scan, a: Seq<char>, b: Seq<char>)
    ensures
        scan_from(s, a + b) == scan_from(scan_from(s, a), b),
    decreases b.len(),
{
    if b.len() > 0 {
        lemma_scan_parts(s, a, b.drop_last());
        assert((a + b).drop_last() =~= a + b.drop_last());
    }
}

/// Inside a bracket, reading a written value adds the value itself to the
/// characters read.
pub proof fn lemma_scan_escaped(s: Scan, value: Seq<char>)
    requires
        s.in_brackets,
        !s.escaped,
    ensures
        scan_from(s, escaped(value)) == (Scan { current: s.current + value, ..s }),
    decreases value.len(),
{
    if value.len() > 0 {
        let c = value.last();
        let init = value.drop_last();
        let head = escaped(init);
        lemma_scan_escaped(s, init);
        let mid = Scan { current: s.current + init, ..s };
        assert((s.current + init).push(c) =~= s.current + value);
        if c == '\\' || c == ']' {
            let written = head.push('\\').push(c);
            assert(written.drop_last() =~= head.push('\\'));
            assert(head.push('\\').drop_last() =~= head);
            assert(scan_from(s, head.push('\\')) == scan_step(mid, '\\'));
        } else {
            assert(head.push(c).drop_last() =~= head);
        }
    }
}

/// Between values, reading written values adds exactly those values.
pub proof fn lemma_scan_values(s: Scan, values: Seq<Seq<char>>)
    requires
        !s.in_brackets,
        !s.escaped,
        s.current.len() == 0,
    ensures
        scan_from(s, values_text(values)) == (Scan { values: s.values + values, ..s }),
    decreases values.len(),
{
    if values.len() > 0 {
        let init = values.drop_last();
        let last = values.last();
        lemma_scan_values(s, init);
        let before = Scan { values: s.values + init, ..s };
        let opened = Scan { in_brackets: true, ..before };
        let head = values_text(init);
        let open = seq!['['];
        let close = seq![']'];
        lemma_scan_parts(s, head + open + escaped(last), close);
        lemma_scan_parts(s, head + open, escaped(last));
        lemma_scan_parts(s, head, open);
        assert(scan_from(before, open) == scan_step(scan_from(before, open.drop_last()), '['));
        lemma_scan_escaped(opened, last);
        let filled = Scan { current: opened.current + last, ..opened };
        assert(scan_from(filled, close) == scan_step(scan_from(filled, close.drop_last()), ']'));
        assert((s.values + init).push(last) =~= s.values + values);
        assert(s.current =~= Seq::empty());
    }
}

/// The values of a property survive being written and read back: reading
/// the text of a property after its identifier gives its values.
pub proof fn lemma_values_read_back(property: PropertyView)
    ensures
        values_in(property_text(property), property.identifier.len() as int) == property.values,
{
    let text = property_text(property);
    assert(text.skip(property.identifier.len() as int) =~= values_text(property.values));
    lemma_scan_values(scan_start(), property.values);
}

/// Reads the values in the text of a property, which starts with an
/// identifier of `skip` characters.
pub fn split_values(text: &str, skip: usize) -> (values: Vec<String>)
    ensures
        texts(values@) == values_in(text@, skip as int),
{
    let n = text.unicode_len();
    let mut values: Vec<String> = Vec::new();
    if skip > n {
        return values;
    }
    let ghost body = text@.skip(skip as int);
    let mut current = String::new();
    let mut in_brackets = false;
    let mut escaped = false;
    let mut i: usize = skip;
    proof {
        assert(texts(values@) =~= Seq::empty());
    }
    while i < n
        invariant
            skip <= i <= n,
            n == text@.len(),
            body == text@.skip(skip as int),
            scan_from(scan_start(), body.take(i - skip)) == (Scan {
                values: texts(values@),
                current: current@,
                in_brackets,
                escaped,
            }),
        decreases n - i,
    {
        let c = text.get_char(i);
        proof {
            assert(body.take(i - skip + 1).drop_last() =~= body.take(i - skip));
        }
        let ghost before = texts(values@);
        if escaped {
            current.push(c);
            escaped = false;
        } else if c == '\\' {
            escaped = true;
        } else if c == '[' {
            if in_brackets {
                current.push(c);
            } else {
                in_brackets = true;
            }
        } else if c == ']' {
            let ghost done = current@;
            values.push(current);
            current = String::new();
            in_brackets = false;
            proof {
                assert(texts(values@) =~= before.push(done));
            }
        } else {
            current.push(c);
        }
        i = i + 1;
    }
    proof {
        assert(body.take(n - skip) =~= body);
    }
    values
}

/// Writes a value after the text: with a backslash before each backslash
/// and each closing bracket.
pub fn write_escaped(out: &mut String, value: &str)
    ensures
        final(out)@ == old(out)@ + escaped(value@),
{
    let n = value.unicode_len();
    let mut i: usize = 0;
    while i < n
        invariant
            i <= n,
            n == value@.len(),
            out@ == old(out)@ + escaped(value@.take(i as int)),
        decreases n - i,
    {
        let c = value.get_char(i);
        proof {
            assert(value@.take(i + 1).drop_last() =~= value@.take(i as int));
        }
        if c == '\\' || c == ']' {
            out.push('\\');
            out.push(c);
        } else {
            out.push(c);
        }
        i = i + 1;
    }
    proof {
        assert(value@.take(n as int) =~= value@);
    }
}

} // verus!
