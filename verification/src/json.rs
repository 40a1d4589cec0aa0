//! Serializing a structured record into the output format: objects for
//! dictionaries, arrays for lists, strings for leaves, with the usual
//! escapes. `spec_json` is the exact picture of the text produced.

use vstd::prelude::*;

use crate::data::DataModel;
use crate::data::TransformedData;
use crate::data::dmodel_elems;
use crate::data::dmodel_entries;

verus! {

broadcast use vstd::std_specs::vec::group_vec_axioms;

/// The lowercase hexadecimal digit for `d`.
pub open spec fn spec_hex_digit(d: int) -> char {
    if d == 0 {
        '0'
    } else if d == 1 {
        '1'
    } else if d == 2 {
        '2'
    } else if d == 3 {
        '3'
    } else if d == 4 {
        '4'
    } else if d == 5 {
        '5'
    } else if d == 6 {
        '6'
    } else if d == 7 {
        '7'
    } else if d == 8 {
        '8'
    } else if d == 9 {
        '9'
    } else if d == 10 {
        'a'
    } else if d == 11 {
        'b'
    } else if d == 12 {
        'c'
    } else if d == 13 {
        'd'
    } else if d == 14 {
        'e'
    } else {
        'f'
    }
}

/// How one character is written inside a string: quote and backslash get a
/// backslash, the named control characters their short escapes, the other
/// control characters a `\u00..` escape, everything else itself.
pub open spec fn spec_escape_char(c: char) -> Seq<char> {
    if c == '"' {
        seq!['\\', '"']
    } else if c == '\\' {
        seq!['\\', '\\']
    } else if c == '\n' {
        seq!['\\', 'n']
    } else if c == '\r' {
        seq!['\\', 'r']
    } else if c == '\t' {
        seq!['\\', 't']
    } else if c == '\u{8}' {
        seq!['\\', 'b']
    } else if c == '\u{c}' {
        seq!['\\', 'f']
    } else if (c as u32) < 32 {
        seq![
            '\\',
            'u',
            '0',
            '0',
            spec_hex_digit(((c as u32) / 16) as int),
            spec_hex_digit(((c as u32) % 16) as int),
        ]
    } else {
        seq![c]
    }
}

/// A whole string's characters written out.
pub open spec fn spec_escape(s: Seq<char>) -> Seq<char>
    decreases s.len(),
{
    if s.len() == 0 {
        Seq::empty()
    } else {
        spec_escape_char(s[0]).add(spec_escape(s.skip(1)))
    }
}

/// The text a tree serializes to.
pub open spec fn spec_json(d: DataModel) -> Seq<char>
    decreases d, 0int,
{
    match d {
        DataModel::Value(s) => seq!['"'].add(spec_escape(s)).add(seq!['"']),
        DataModel::List(l) => {
            proof {
                assert(decreases_to!(d => l));
            }
            seq!['['].add(spec_json_elems(l)).add(seq![']'])
        },
        DataModel::Dict(es) => {
            proof {
                assert(decreases_to!(d => es));
            }
            seq!['{'].add(spec_json_entries(es)).add(seq!['}'])
        },
    }
}

/// One object entry: the quoted key, a colon, the value.
pub open spec fn spec_json_entry(e: (Seq<char>, DataModel)) -> Seq<char>
    decreases e, 1int,
{
    seq!['"'].add(spec_escape(e.0)).add(seq!['"', ':']).add(spec_json(e.1))
}

/// An object's entries, comma-separated.
pub open spec fn spec_json_entries(es: Seq<(Seq<char>, DataModel)>) -> Seq<char>
    decreases es, 2int,
{
    proof {
        if es.len() > 0 {
            assert(decreases_to!(es => es[0]));
            assert(decreases_to!(es => es.skip(1)));
        }
    }
    if es.len() == 0 {
        Seq::empty()
    } else if es.len() == 1 {
        spec_json_entry(es[0])
    } else {
        spec_json_entry(es[0]).add(seq![',']).add(spec_json_entries(es.skip(1)))
    }
}

/// An array's elements, comma-separated.
pub open spec fn spec_json_elems(l: Seq<DataModel>) -> Seq<char>
    decreases l, 2int,
{
    proof {
        if l.len() > 0 {
            assert(decreases_to!(l => l[0]));
            assert(decreases_to!(l => l.skip(1)));
        }
    }
    if l.len() == 0 {
        Seq::empty()
    } else if l.len() == 1 {
        spec_json(l[0])
    } else {
        spec_json(l[0]).add(seq![',']).add(spec_json_elems(l.skip(1)))
    }
}

/// One lowercase hexadecimal digit as text.
fn hex_digit_str(d: u32) -> (r: &'static str)
    requires
        d < 16,
    ensures
        r@ =~= seq![spec_hex_digit(d as int)],
{
    proof {
        reveal_strlit("0");
        reveal_strlit("1");
        reveal_strlit("2");
        reveal_strlit("3");
        reveal_strlit("4");
        reveal_strlit("5");
        reveal_strlit("6");
        reveal_strlit("7");
        reveal_strlit("8");
        reveal_strlit("9");
        reveal_strlit("a");
        reveal_strlit("b");
        reveal_strlit("c");
        reveal_strlit("d");
        reveal_strlit("e");
        reveal_strlit("f");
    }
    if d == 0 {
        "0"
    } else if d == 1 {
        "1"
    } else if d == 2 {
        "2"
    } else if d == 3 {
        "3"
    } else if d == 4 {
        "4"
    } else if d == 5 {
        "5"
    } else if d == 6 {
        "6"
    } else if d == 7 {
        "7"
    } else if d == 8 {
        "8"
    } else if d == 9 {
        "9"
    } else if d == 10 {
        "a"
    } else if d == 11 {
        "b"
    } else if d == 12 {
        "c"
    } else if d == 13 {
        "d"
    } else if d == 14 {
        "e"
    } else {
        "f"
    }
}

/// Whether a character is written as itself.
pub open spec fn spec_plain(c: char) -> bool {
    c != '"' && c != '\\' && (c as u32) >= 32
}

/// A run of plain characters escapes to itself.
proof fn lemma_escape_plain_run(s: Seq<char>, i: int, j: int)
    requires
        0 <= i <= j <= s.len(),
        forall|k: int| i <= k < j ==> spec_plain(s[k]),
    ensures
        spec_escape(s.skip(i)) == s.subrange(i, j).add(spec_escape(s.skip(j))),
    decreases j - i,
{
    if i == j {
        assert(s.subrange(i, j) =~= Seq::<char>::empty());
        assert(s.subrange(i, j).add(spec_escape(s.skip(j))) =~= spec_escape(s.skip(i)));
    } else {
        lemma_escape_plain_run(s, i + 1, j);
        assert(s.skip(i)[0] == s[i]);
        assert(s.skip(i).skip(1) =~= s.skip(i + 1));
        assert(spec_escape_char(s[i]) =~= seq![s[i]]);
        assert(seq![s[i]].add(s.subrange(i + 1, j)) =~= s.subrange(i, j));
        assert(spec_escape(s.skip(i)) =~= s.subrange(i, j).add(spec_escape(s.skip(j))));
    }
}

/// Append the escaped text of a whole string.
#[verifier::loop_isolation(false)]
fn push_escaped(out: &mut String, s: &str)
    ensures
        final(out)@ == old(out)@.add(spec_escape(s@)),
{
    proof {
        reveal_strlit("\\\"");
        reveal_strlit("\\\\");
        reveal_strlit("\\n");
        reveal_strlit("\\r");
        reveal_strlit("\\t");
        reveal_strlit("\\b");
        reveal_strlit("\\f");
        reveal_strlit("\\u00");
    }
    let n = s.unicode_len();
    let mut i: usize = 0;
    proof {
        assert(s@.skip(0) =~= s@);
    }
    while i < n
        invariant
            n == s@.len(),
            i <= n,
            old(out)@.add(spec_escape(s@)) == out@.add(spec_escape(s@.skip(i as int))),
        decreases n - i,
    {
        let ghost rest = s@.skip(i as int);
        proof {
            assert(rest[0] == s@[i as int]);
            assert(rest.skip(1) =~= s@.skip(i + 1));
        }
        let c = s.get_char(i);
        let plain = !(c == '"') && !(c == '\\') && (c as u32) >= 32;
        if plain {
            let mut j = i + 1;
            while j < n && !(s.get_char(j) == '"') && !(s.get_char(j) == '\\') && (s.get_char(j)
                as u32) >= 32
                invariant
                    i < j <= n,
                    forall|k: int| i <= k < j ==> spec_plain(s@[k]),
                decreases n - j,
            {
                j = j + 1;
            }
            out.append(s.substring_char(i, j));
            proof {
                lemma_escape_plain_run(s@, i as int, j as int);
            }
            i = j;
        } else {
            if c == '"' {
                out.append("\\\"");
            } else if c == '\\' {
                out.append("\\\\");
            } else if c == '\n' {
                out.append("\\n");
            } else if c == '\r' {
                out.append("\\r");
            } else if c == '\t' {
                out.append("\\t");
            } else if c == '\u{8}' {
                out.append("\\b");
            } else if c == '\u{c}' {
                out.append("\\f");
            } else {
                out.append("\\u00");
                out.append(hex_digit_str((c as u32) / 16));
                out.append(hex_digit_str((c as u32) % 16));
            }
            proof {
                assert(spec_escape(rest) =~= spec_escape_char(s@[i as int]).add(
                    spec_escape(s@.skip(i + 1)),
                ));
            }
            i = i + 1;
        }
    }
    proof {
        assert(s@.skip(n as int) =~= Seq::<char>::empty());
        assert(out@ =~= out@.add(spec_escape(s@.skip(n as int))));
    }
}

impl TransformedData {
    /// The record written in the output format, per `spec_json`.
    #[verifier::loop_isolation(false)]
    #[verifier::rlimit(50)]
    pub fn to_json_string(&self) -> (r: String)
        ensures
            r@ == spec_json(self@),
        decreases *self,
    {
        proof {
            reveal_strlit("\"");
            reveal_strlit("\":");
            reveal_strlit(",");
            reveal_strlit("[");
            reveal_strlit("]");
            reveal_strlit("{");
            reveal_strlit("}");
        }
        match self {
            TransformedData::Value(s) => {
                let mut out = String::from_str("\"");
                push_escaped(&mut out, s.as_str());
                out.append("\"");
                proof {
                    assert(out@ =~= spec_json(self@));
                }
                out
            },
            TransformedData::List(l) => {
                proof {
                    crate::data::lemma_model_list(*self);
                    crate::data::lemma_elems_model(l@);
                }
                let ghost gl = dmodel_elems(l@);
                let mut out = String::from_str("[");
                let mut k: usize = 0;
                proof {
                    assert(gl.skip(0) =~= gl);
                    assert(out@ =~= seq!['['].add(spec_json_elems(gl.skip(0)).take(0)));
                }
                while k < l.len()
                    invariant
                        k <= l@.len(),
                        gl.len() == l@.len(),
                        gl == dmodel_elems(l@),
                        k == 0 ==> out@ == seq!['['],
                        k > 0 ==> seq!['['].add(spec_json_elems(gl)) == out@.add(
                            spec_json_rest_elems(gl.skip(k as int)),
                        ),
                    decreases l@.len() - k,
                {
                    proof {
                        assert(decreases_to!(l => l@));
                        assert(decreases_to!(l@ => l@[k as int]));
                        assert(gl.skip(k as int)[0] == gl[k as int]);
                        assert(gl.skip(k as int).skip(1) =~= gl.skip(k + 1));
                        assert(gl[k as int] == l@[k as int].dmodel());
                    }
                    if k > 0 {
                        out.append(",");
                    }
                    let piece = l[k].to_json_string();
                    out.append(piece.as_str());
                    proof {
                        if k == 0 {
                            lemma_elems_head(gl);
                        }
                    }
                    k = k + 1;
                }
                proof {
                    if l.len() == 0 {
                        assert(spec_json_elems(gl) =~= Seq::<char>::empty());
                        assert(out@.add(Seq::<char>::empty()) =~= out@);
                    } else {
                        assert(spec_json_rest_elems(gl.skip(gl.len() as int)) =~= Seq::<
                            char,
                        >::empty());
                        assert(out@.add(Seq::<char>::empty()) =~= out@);
                    }
                }
                out.append("]");
                proof {
                    assert(out@ =~= spec_json(self@));
                }
                out
            },
            TransformedData::Dict(m) => {
                proof {
                    crate::data::lemma_model_dict(*self);
                    crate::data::lemma_entries_model(m@);
                }
                let ghost ges = dmodel_entries(m@);
                let mut out = String::from_str("{");
                let mut k: usize = 0;
                proof {
                    assert(ges.skip(0) =~= ges);
                }
                while k < m.len()
                    invariant
                        k <= m@.len(),
                        ges.len() == m@.len(),
                        ges == dmodel_entries(m@),
                        k == 0 ==> out@ == seq!['{'],
                        k > 0 ==> seq!['{'].add(spec_json_entries(ges)) == out@.add(
                            spec_json_rest_entries(ges.skip(k as int)),
                        ),
                    decreases m@.len() - k,
                {
                    proof {
                        assert(decreases_to!(m => m@));
                        assert(decreases_to!(m@ => m@[k as int]));
                        assert(ges.skip(k as int)[0] == ges[k as int]);
                        assert(ges.skip(k as int).skip(1) =~= ges.skip(k + 1));
                        assert(ges[k as int] == ((m@[k as int].0)@, m@[k as int].1.dmodel()));
                    }
                    if k > 0 {
                        out.append(",");
                    }
                    out.append("\"");
                    push_escaped(&mut out, m[k].0.as_str());
                    out.append("\":");
                    let piece = m[k].1.to_json_string();
                    out.append(piece.as_str());
                    proof {
                        assert(spec_json_entry(ges[k as int]) =~= seq!['"'].add(
                            spec_escape((m@[k as int].0)@),
                        ).add(seq!['"', ':']).add(spec_json(m@[k as int].1.dmodel())));
                        if k == 0 {
                            lemma_entries_head(ges);
                        }
                    }
                    k = k + 1;
                }
                proof {
                    if m.len() == 0 {
                        assert(spec_json_entries(ges) =~= Seq::<char>::empty());
                        assert(out@.add(Seq::<char>::empty()) =~= out@);
                    } else {
                        assert(spec_json_rest_entries(ges.skip(ges.len() as int)) =~= Seq::<
                            char,
                        >::empty());
                        assert(out@.add(Seq::<char>::empty()) =~= out@);
                    }
                }
                out.append("}");
                proof {
                    assert(out@ =~= spec_json(self@));
                }
                out
            },
        }
    }
}

/// The comma-prefixed tail of an object body from its second entry on.
pub open spec fn spec_json_rest_entries(es: Seq<(Seq<char>, DataModel)>) -> Seq<char>
    decreases es, 3int,
{
    proof {
        if es.len() > 0 {
            assert(decreases_to!(es => es[0]));
            assert(decreases_to!(es => es.skip(1)));
        }
    }
    if es.len() == 0 {
        Seq::empty()
    } else {
        seq![','].add(spec_json_entry(es[0])).add(spec_json_rest_entries(es.skip(1)))
    }
}

/// The comma-prefixed tail of an array body from its second element on.
pub open spec fn spec_json_rest_elems(l: Seq<DataModel>) -> Seq<char>
    decreases l, 3int,
{
    proof {
        if l.len() > 0 {
            assert(decreases_to!(l => l[0]));
            assert(decreases_to!(l => l.skip(1)));
        }
    }
    if l.len() == 0 {
        Seq::empty()
    } else {
        seq![','].add(spec_json(l[0])).add(spec_json_rest_elems(l.skip(1)))
    }
}

/// The value of a lowercase hexadecimal digit character, or `-1`.
pub open spec fn spec_hex_val(c: char) -> int {
    if c == '0' {
        0
    } else if c == '1' {
        1
    } else if c == '2' {
        2
    } else if c == '3' {
        3
    } else if c == '4' {
        4
    } else if c == '5' {
        5
    } else if c == '6' {
        6
    } else if c == '7' {
        7
    } else if c == '8' {
        8
    } else if c == '9' {
        9
    } else if c == 'a' {
        10
    } else if c == 'b' {
        11
    } else if c == 'c' {
        12
    } else if c == 'd' {
        13
    } else if c == 'e' {
        14
    } else if c == 'f' {
        15
    } else {
        -1
    }
}

/// Reading escaped text back: the inverse scan of `spec_escape`, over
/// exactly the escapes this module writes; `None` on text its writer would
/// not produce.
pub open spec fn spec_unescape(s: Seq<char>) -> Option<Seq<char>>
    decreases s.len(),
{
    if s.len() == 0 {
        Some(Seq::empty())
    } else if s[0] == '\\' {
        if s.len() >= 2 && (s[1] == '"' || s[1] == '\\' || s[1] == 'n' || s[1] == 'r' || s[1] == 't'
            || s[1] == 'b' || s[1] == 'f') {
            let c = if s[1] == '"' {
                '"'
            } else if s[1] == '\\' {
                '\\'
            } else if s[1] == 'n' {
                '\n'
            } else if s[1] == 'r' {
                '\r'
            } else if s[1] == 't' {
                '\t'
            } else if s[1] == 'b' {
                '\u{8}'
            } else {
                '\u{c}'
            };
            match spec_unescape(s.skip(2)) {
                Some(r) => Some(seq![c].add(r)),
                None => None,
            }
        } else if s.len() >= 6 && s[1] == 'u' && s[2] == '0' && s[3] == '0' && spec_hex_val(s[4])
            >= 0 && spec_hex_val(s[5]) >= 0 {
            let code = spec_hex_val(s[4]) * 16 + spec_hex_val(s[5]);
            match spec_unescape(s.skip(6)) {
                Some(r) => Some(seq![(code as u32) as char].add(r)),
                None => None,
            }
        } else {
            None
        }
    } else {
        match spec_unescape(s.skip(1)) {
            Some(r) => Some(seq![s[0]].add(r)),
            None => None,
        }
    }
}

/// Law (the leaf layer of the serialization round trip): the text this
/// module writes for a string leaf reads back to exactly the original
/// characters.
pub proof fn lemma_unescape_escape(s: Seq<char>)
    ensures
        spec_unescape(spec_escape(s)) == Some(s),
    decreases s.len(),
{
    if s.len() == 0 {
    } else {
        lemma_unescape_escape(s.skip(1));
        let c = s[0];
        let e = spec_escape_char(c);
        let t = spec_escape(s);
        assert(t == e.add(spec_escape(s.skip(1))));
        if c == '"' || c == '\\' || c == '\n' || c == '\r' || c == '\t' || c == '\u{8}' || c
            == '\u{c}' {
            assert(t.skip(2) =~= spec_escape(s.skip(1)));
            assert(seq![c].add(s.skip(1)) =~= s);
        } else if (c as u32) < 32 {
            assert(t.skip(6) =~= spec_escape(s.skip(1)));
            let hi = ((c as u32) / 16) as int;
            let lo = ((c as u32) % 16) as int;
            assert(0 <= hi && hi < 2);
            assert(0 <= lo && lo < 16);
            assert(spec_hex_val(spec_hex_digit(hi)) == hi);
            assert(spec_hex_val(spec_hex_digit(lo)) == lo);
            assert(hi * 16 + lo == (c as u32) as int);
            assert(((hi * 16 + lo) as u32) == c as u32);
            vstd::utf8::char_u32_cast(c, c as u32);
            assert(seq![c].add(s.skip(1)) =~= s);
        } else {
            assert(t.skip(1) =~= spec_escape(s.skip(1)));
            assert(seq![c].add(s.skip(1)) =~= s);
        }
    }
}

/// Reading a quoted string's body from position `i` (just past the opening
/// quote): the decoded characters and the position just past the closing
/// quote. Exactly the escapes this module writes are read back.
pub open spec fn spec_parse_string(s: Seq<char>, i: int) -> Option<(Seq<char>, int)>
    decreases s.len() - i,
{
    if i < 0 || i >= s.len() {
        None
    } else if s[i] == '"' {
        Some((Seq::empty(), i + 1))
    } else if s[i] == '\\' {
        if i + 2 <= s.len() && (s[i + 1] == '"' || s[i + 1] == '\\' || s[i + 1] == 'n' || s[i + 1]
            == 'r' || s[i + 1] == 't' || s[i + 1] == 'b' || s[i + 1] == 'f') {
            let c = if s[i + 1] == '"' {
                '"'
            } else if s[i + 1] == '\\' {
                '\\'
            } else if s[i + 1] == 'n' {
                '\n'
            } else if s[i + 1] == 'r' {
                '\r'
            } else if s[i + 1] == 't' {
                '\t'
            } else if s[i + 1] == 'b' {
                '\u{8}'
            } else {
                '\u{c}'
            };
            match spec_parse_string(s, i + 2) {
                Some((r, n)) => Some((seq![c].add(r), n)),
                None => None,
            }
        } else if i + 6 <= s.len() && s[i + 1] == 'u' && s[i + 2] == '0' && s[i + 3] == '0'
            && spec_hex_val(s[i + 4]) >= 0 && spec_hex_val(s[i + 5]) >= 0 {
            let code = spec_hex_val(s[i + 4]) * 16 + spec_hex_val(s[i + 5]);
            match spec_parse_string(s, i + 6) {
                Some((r, n)) => Some((seq![(code as u32) as char].add(r), n)),
                None => None,
            }
        } else {
            None
        }
    } else {
        match spec_parse_string(s, i + 1) {
            Some((r, n)) => Some((seq![s[i]].add(r), n)),
            None => None,
        }
    }
}

/// Reading one value from position `i`: a string, an array or an object,
/// and the position just past it. `fuel` only bounds the recursion; any
/// fuel beyond the text's length is enough.
pub open spec fn spec_parse_value(s: Seq<char>, i: int, fuel: nat) -> Option<(DataModel, int)>
    decreases fuel,
{
    if fuel == 0 || i < 0 || i >= s.len() {
        None
    } else if s[i] == '"' {
        match spec_parse_string(s, i + 1) {
            Some((c, n)) => Some((DataModel::Value(c), n)),
            None => None,
        }
    } else if s[i] == '[' {
        if i + 1 < s.len() && s[i + 1] == ']' {
            Some((DataModel::List(Seq::empty()), i + 2))
        } else {
            match spec_parse_elems(s, i + 1, (fuel - 1) as nat) {
                Some((l, n)) => Some((DataModel::List(l), n)),
                None => None,
            }
        }
    } else if s[i] == '{' {
        if i + 1 < s.len() && s[i + 1] == '}' {
            Some((DataModel::Dict(Seq::empty()), i + 2))
        } else {
            match spec_parse_entries(s, i + 1, (fuel - 1) as nat) {
                Some((es, n)) => Some((DataModel::Dict(es), n)),
                None => None,
            }
        }
    } else {
        None
    }
}

/// Reading the elements of a non-empty array from position `i`, up to and
/// past the closing bracket.
pub open spec fn spec_parse_elems(s: Seq<char>, i: int, fuel: nat) -> Option<
    (Seq<DataModel>, int),
>
    decreases fuel,
{
    if fuel == 0 {
        None
    } else {
        match spec_parse_value(s, i, (fuel - 1) as nat) {
            Some((v, n)) => if n < s.len() && s[n] == ',' {
                match spec_parse_elems(s, n + 1, (fuel - 1) as nat) {
                    Some((l, m)) => Some((seq![v].add(l), m)),
                    None => None,
                }
            } else if n < s.len() && s[n] == ']' {
                Some((seq![v], n + 1))
            } else {
                None
            },
            None => None,
        }
    }
}

/// Reading the entries of a non-empty object from position `i`, up to and
/// past the closing brace.
pub open spec fn spec_parse_entries(s: Seq<char>, i: int, fuel: nat) -> Option<
    (Seq<(Seq<char>, DataModel)>, int),
>
    decreases fuel,
{
    if fuel == 0 || i < 0 || i >= s.len() || s[i] != '"' {
        None
    } else {
        match spec_parse_string(s, i + 1) {
            Some((k, n)) => if n < s.len() && s[n] == ':' {
                match spec_parse_value(s, n + 1, (fuel - 1) as nat) {
                    Some((v, m)) => if m < s.len() && s[m] == ',' {
                        match spec_parse_entries(s, m + 1, (fuel - 1) as nat) {
                            Some((es, q)) => Some((seq![(k, v)].add(es), q)),
                            None => None,
                        }
                    } else if m < s.len() && s[m] == '}' {
                        Some((seq![(k, v)], m + 1))
                    } else {
                        None
                    },
                    None => None,
                }
            } else {
                None
            },
            None => None,
        }
    }
}

/// Reading a whole document: one value spanning the whole text.
pub open spec fn spec_parse_json(s: Seq<char>) -> Option<DataModel> {
    match spec_parse_value(s, 0, (s.len() + 1) as nat) {
        Some((v, n)) => if n == s.len() {
            Some(v)
        } else {
            None
        },
        None => None,
    }
}

/// The string reader undoes the string writer: with the written escape of
/// `content` and a closing quote at `i`, reading yields `content` exactly.
proof fn lemma_parse_string_escape(s: Seq<char>, i: int, content: Seq<char>)
    requires
        0 <= i,
        i + spec_escape(content).len() + 1 <= s.len(),
        s.subrange(i, i + spec_escape(content).len()) == spec_escape(content),
        s[i + spec_escape(content).len()] == '"',
    ensures
        spec_parse_string(s, i) == Some::<(Seq<char>, int)>(
            (content, i + spec_escape(content).len() + 1),
        ),
    decreases content.len(),
{
    let e = spec_escape(content);
    if content.len() == 0 {
        assert(e.len() == 0);
    } else {
        let c = content[0];
        let ec = spec_escape_char(c);
        let erest = spec_escape(content.skip(1));
        assert(e == ec.add(erest));
        assert forall|k: int| 0 <= k < ec.len() implies s[i + k] == ec[k] by {
            assert(s.subrange(i, i + e.len())[k] == s[i + k]);
            assert(e[k] == ec[k]);
        }
        assert(s.subrange(i + ec.len(), i + ec.len() + erest.len()) =~= erest) by {
            assert forall|k: int|
                0 <= k < erest.len() implies s.subrange(
                i + ec.len(),
                i + ec.len() + erest.len(),
            )[k] == erest[k] by {
                assert(s.subrange(i, i + e.len())[ec.len() + k] == s[i + ec.len() + k]);
                assert(e[ec.len() + k] == erest[k]);
            }
        }
        lemma_parse_string_escape(s, i + ec.len(), content.skip(1));
        if c == '"' || c == '\\' || c == '\n' || c == '\r' || c == '\t' || c == '\u{8}' || c
            == '\u{c}' {
            assert(seq![c].add(content.skip(1)) =~= content);
        } else if (c as u32) < 32 {
            let hi = ((c as u32) / 16) as int;
            let lo = ((c as u32) % 16) as int;
            assert(0 <= hi && hi < 2);
            assert(0 <= lo && lo < 16);
            assert(spec_hex_val(spec_hex_digit(hi)) == hi);
            assert(spec_hex_val(spec_hex_digit(lo)) == lo);
            assert(((hi * 16 + lo) as u32) == c as u32);
            vstd::utf8::char_u32_cast(c, c as u32);
            assert(seq![c].add(content.skip(1)) =~= content);
        } else {
            assert(s[i] == c);
            assert(seq![c].add(content.skip(1)) =~= content);
        }
    }
}

/// The value reader undoes the writer: with the written text of `d` at
/// `i`, reading yields `d` exactly and stops just past it.
proof fn lemma_parse_json_at(s: Seq<char>, i: int, d: DataModel, fuel: nat)
    requires
        0 <= i,
        i + spec_json(d).len() <= s.len(),
        s.subrange(i, i + spec_json(d).len()) == spec_json(d),
        fuel >= spec_json(d).len() + 1,
    ensures
        spec_parse_value(s, i, fuel) == Some::<(DataModel, int)>((d, i + spec_json(d).len())),
    decreases d, 0int,
{
    let j = spec_json(d);
    assert(j.len() >= 2) by {
        match d {
            DataModel::Value(_) => {},
            DataModel::List(_) => {},
            DataModel::Dict(_) => {},
        }
    }
    assert forall|k: int| 0 <= k < j.len() implies s[i + k] == j[k] by {
        assert(s.subrange(i, i + j.len())[k] == s[i + k]);
    }
    match d {
        DataModel::Value(content) => {
            let e = spec_escape(content);
            assert(j == seq!['"'].add(e).add(seq!['"']));
            assert(s[i + 0] == j[0]);
            assert(j[0] == '"');
            assert(s.subrange(i + 1, i + 1 + e.len()) =~= e) by {
                assert forall|k: int| 0 <= k < e.len() implies s[i + 1 + k] == e[k] by {
                    assert(j[1 + k] == e[k]);
                }
            }
            assert(s[i + 1 + e.len()] == '"') by {
                assert(j[1 + e.len() as int] == '"');
            }
            lemma_parse_string_escape(s, i + 1, content);
        },
        DataModel::List(l) => {
            let body = spec_json_elems(l);
            assert(j == seq!['['].add(body).add(seq![']']));
            assert(s[i + 0] == j[0]);
            assert(j[0] == '[');
            assert(s[i + 1 + body.len()] == ']') by {
                assert(j[1 + body.len() as int] == ']');
            }
            if l.len() == 0 {
                assert(body.len() == 0);
                assert(s[i + 1] == ']');
                assert(l =~= Seq::<DataModel>::empty());
            } else {
                assert(decreases_to!(d => l));
                assert(s.subrange(i + 1, i + 1 + body.len()) =~= body) by {
                    assert forall|k: int| 0 <= k < body.len() implies s[i + 1 + k] == body[k] by {
                        assert(j[1 + k] == body[k]);
                    }
                }
                lemma_body_first_char_elems(l);
                assert(s[i + 1] == j[1]);
                assert(j[1] == body[0]);
                lemma_parse_elems_at(s, i + 1, l, (fuel - 1) as nat);
            }
        },
        DataModel::Dict(es) => {
            let body = spec_json_entries(es);
            assert(j == seq!['{'].add(body).add(seq!['}']));
            assert(s[i + 0] == j[0]);
            assert(j[0] == '{');
            assert(s[i + 1 + body.len()] == '}') by {
                assert(j[1 + body.len() as int] == '}');
            }
            if es.len() == 0 {
                assert(body.len() == 0);
                assert(s[i + 1] == '}');
                assert(es =~= Seq::<(Seq<char>, DataModel)>::empty());
            } else {
                assert(decreases_to!(d => es));
                assert(s.subrange(i + 1, i + 1 + body.len()) =~= body) by {
                    assert forall|k: int| 0 <= k < body.len() implies s[i + 1 + k] == body[k] by {
                        assert(j[1 + k] == body[k]);
                    }
                }
                lemma_body_first_char_entries(es);
                lemma_parse_entries_at(s, i + 1, es, (fuel - 1) as nat);
            }
        },
    }
}

/// A non-empty array body starts with a value, never with `]`, and a
/// non-empty object body starts with a quote.
proof fn lemma_body_first_char_elems(l: Seq<DataModel>)
    requires
        l.len() > 0,
    ensures
        spec_json_elems(l).len() >= 1,
        spec_json_elems(l)[0] == spec_json(l[0])[0],
        spec_json(l[0])[0] == '"' || spec_json(l[0])[0] == '[' || spec_json(l[0])[0] == '{',
{
    let j0 = spec_json(l[0]);
    match l[0] {
        DataModel::Value(c) => {
            assert(j0 == seq!['"'].add(spec_escape(c)).add(seq!['"']));
            assert(j0[0] == '"');
        },
        DataModel::List(inner) => {
            assert(j0 == seq!['['].add(spec_json_elems(inner)).add(seq![']']));
            assert(j0[0] == '[');
        },
        DataModel::Dict(inner) => {
            assert(j0 == seq!['{'].add(spec_json_entries(inner)).add(seq!['}']));
            assert(j0[0] == '{');
        },
    }
    if l.len() == 1 {
        assert(spec_json_elems(l) == j0);
    } else {
        assert(spec_json_elems(l) == j0.add(seq![',']).add(spec_json_elems(l.skip(1))));
        assert(spec_json_elems(l)[0] == j0[0]);
    }
}

proof fn lemma_body_first_char_entries(es: Seq<(Seq<char>, DataModel)>)
    requires
        es.len() > 0,
    ensures
        spec_json_entries(es).len() >= 1,
        spec_json_entries(es)[0] == '"',
{
    let e0 = spec_json_entry(es[0]);
    assert(e0 == seq!['"'].add(spec_escape(es[0].0)).add(seq!['"', ':']).add(spec_json(es[0].1)));
    assert(e0[0] == '"');
    if es.len() == 1 {
        assert(spec_json_entries(es) == e0);
    } else {
        assert(spec_json_entries(es) == e0.add(seq![',']).add(spec_json_entries(es.skip(1))));
        assert(spec_json_entries(es)[0] == e0[0]);
    }
}

/// The element reader undoes the writer over a non-empty element list:
/// given the written body at `i` and the closing bracket just past it.
proof fn lemma_parse_elems_at(s: Seq<char>, i: int, l: Seq<DataModel>, fuel: nat)
    requires
        0 <= i,
        l.len() > 0,
        i + spec_json_elems(l).len() + 1 <= s.len(),
        s.subrange(i, i + spec_json_elems(l).len()) == spec_json_elems(l),
        s[i + spec_json_elems(l).len()] == ']',
        fuel >= spec_json_elems(l).len() + 2,
    ensures
        spec_parse_elems(s, i, fuel) == Some::<(Seq<DataModel>, int)>(
            (l, i + spec_json_elems(l).len() + 1),
        ),
    decreases l, 2int,
{
    let body = spec_json_elems(l);
    let j0 = spec_json(l[0]);
    assert forall|k: int| 0 <= k < body.len() implies s[i + k] == body[k] by {
        assert(s.subrange(i, i + body.len())[k] == s[i + k]);
    }
    assert(decreases_to!(l => l[0]));
    if l.len() == 1 {
        assert(body == j0);
        assert(s.subrange(i, i + j0.len()) =~= j0);
        lemma_parse_json_at(s, i, l[0], (fuel - 1) as nat);
        assert(s[i + j0.len()] == ']');
        assert(seq![l[0]] =~= l);
    } else {
        let rest = spec_json_elems(l.skip(1));
        assert(body == j0.add(seq![',']).add(rest));
        assert(s.subrange(i, i + j0.len()) =~= j0) by {
            assert forall|k: int| 0 <= k < j0.len() implies s[i + k] == j0[k] by {
                assert(body[k] == j0[k]);
            }
        }
        lemma_parse_json_at(s, i, l[0], (fuel - 1) as nat);
        assert(s[i + j0.len()] == ',') by {
            assert(body[j0.len() as int] == ',');
        }
        assert(s.subrange(i + j0.len() + 1, i + j0.len() + 1 + rest.len()) =~= rest) by {
            assert forall|k: int|
                0 <= k < rest.len() implies s[i + j0.len() + 1 + k] == rest[k] by {
                assert(body[j0.len() + 1 + k] == rest[k]);
            }
        }
        assert(decreases_to!(l => l.skip(1)));
        lemma_parse_elems_at(s, i + j0.len() + 1, l.skip(1), (fuel - 1) as nat);
        assert(seq![l[0]].add(l.skip(1)) =~= l);
    }
}

/// The entry reader undoes the writer over a non-empty entry list.
proof fn lemma_parse_entries_at(s: Seq<char>, i: int, es: Seq<(Seq<char>, DataModel)>, fuel: nat)
    requires
        0 <= i,
        es.len() > 0,
        i + spec_json_entries(es).len() + 1 <= s.len(),
        s.subrange(i, i + spec_json_entries(es).len()) == spec_json_entries(es),
        s[i + spec_json_entries(es).len()] == '}',
        fuel >= spec_json_entries(es).len() + 2,
    ensures
        spec_parse_entries(s, i, fuel) == Some::<(Seq<(Seq<char>, DataModel)>, int)>(
            (es, i + spec_json_entries(es).len() + 1),
        ),
    decreases es, 2int,
{
    let body = spec_json_entries(es);
    let e0 = spec_json_entry(es[0]);
    let key = es[0].0;
    let ke = spec_escape(key);
    let jv = spec_json(es[0].1);
    assert forall|k: int| 0 <= k < body.len() implies s[i + k] == body[k] by {
        assert(s.subrange(i, i + body.len())[k] == s[i + k]);
    }
    assert(decreases_to!(es => es[0]));
    assert(e0 == seq!['"'].add(ke).add(seq!['"', ':']).add(jv));
    lemma_body_first_char_entries(es);
    assert(s[i + 0] == body[0]);
    assert forall|k: int| 0 <= k < e0.len() implies body[k] == e0[k] by {
        if es.len() == 1 {
        } else {
            assert(body == e0.add(seq![',']).add(spec_json_entries(es.skip(1))));
        }
    }
    assert(s[i] == '"');
    assert(s.subrange(i + 1, i + 1 + ke.len()) =~= ke) by {
        assert forall|k: int| 0 <= k < ke.len() implies s[i + 1 + k] == ke[k] by {
            assert(e0[1 + k] == ke[k]);
        }
    }
    assert(s[i + 1 + ke.len()] == '"') by {
        assert(e0[1 + ke.len() as int] == '"');
    }
    lemma_parse_string_escape(s, i + 1, key);
    let n = i + 1 + ke.len() + 1;
    assert(s[n] == ':') by {
        assert(e0[1 + ke.len() as int + 1] == ':');
    }
    assert(s.subrange(n + 1, n + 1 + jv.len()) =~= jv) by {
        assert forall|k: int| 0 <= k < jv.len() implies s[n + 1 + k] == jv[k] by {
            assert(e0[3 + ke.len() + k] == jv[k]);
        }
    }
    assert(decreases_to!(es[0] => es[0].1));
    lemma_parse_json_at(s, n + 1, es[0].1, (fuel - 1) as nat);
    let m = n + 1 + jv.len();
    if es.len() == 1 {
        assert(m == i + body.len());
        assert(s[m] == '}');
        assert(seq![(key, es[0].1)] =~= es);
        assert((key, es[0].1) == es[0]);
    } else {
        let rest = spec_json_entries(es.skip(1));
        assert(body == e0.add(seq![',']).add(rest));
        assert(s[m] == ',') by {
            assert(body[e0.len() as int] == ',');
        }
        assert(s.subrange(m + 1, m + 1 + rest.len()) =~= rest) by {
            assert forall|k: int| 0 <= k < rest.len() implies s[m + 1 + k] == rest[k] by {
                assert(body[e0.len() + 1 + k] == rest[k]);
            }
        }
        assert(decreases_to!(es => es.skip(1)));
        lemma_parse_entries_at(s, m + 1, es.skip(1), (fuel - 1) as nat);
        assert(seq![(key, es[0].1)].add(es.skip(1)) =~= es);
    }
}

/// Law (serialization round trip): reading the written text of any tree
/// back yields exactly that tree, variant shape and leaf strings alike.
pub proof fn lemma_json_round_trip(d: DataModel)
    ensures
        spec_parse_json(spec_json(d)) == Some(d),
{
    let s = spec_json(d);
    assert(s.subrange(0, s.len() as int) =~= s);
    lemma_parse_json_at(s, 0, d, (s.len() + 1) as nat);
}

/// The body of an object is its first entry and the comma-prefixed rest.
proof fn lemma_entries_head(es: Seq<(Seq<char>, DataModel)>)
    requires
        es.len() > 0,
    ensures
        spec_json_entries(es) == spec_json_entry(es[0]).add(spec_json_rest_entries(es.skip(1))),
    decreases es.len(),
{
    if es.len() == 1 {
        assert(spec_json_rest_entries(es.skip(1)) =~= Seq::<char>::empty());
        assert(spec_json_entry(es[0]).add(Seq::<char>::empty()) =~= spec_json_entry(es[0]));
    } else {
        lemma_entries_head(es.skip(1));
        assert(spec_json_entry(es[0]).add(seq![',']).add(spec_json_entries(es.skip(1)))
            =~= spec_json_entry(es[0]).add(spec_json_rest_entries(es.skip(1))));
    }
}

/// The body of an array is its first element and the comma-prefixed rest.
proof fn lemma_elems_head(l: Seq<DataModel>)
    requires
        l.len() > 0,
    ensures
        spec_json_elems(l) == spec_json(l[0]).add(spec_json_rest_elems(l.skip(1))),
    decreases l.len(),
{
    if l.len() == 1 {
        assert(spec_json_rest_elems(l.skip(1)) =~= Seq::<char>::empty());
        assert(spec_json(l[0]).add(Seq::<char>::empty()) =~= spec_json(l[0]));
    } else {
        lemma_elems_head(l.skip(1));
        assert(spec_json(l[0]).add(seq![',']).add(spec_json_elems(l.skip(1))) =~= spec_json(
            l[0],
        ).add(spec_json_rest_elems(l.skip(1))));
    }
}

} // verus!
