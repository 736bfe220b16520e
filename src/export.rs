//! Text artifacts of a compilation: the symbol table and the constraint list
//! as JSON.

use vstd::prelude::*;
use vstd::string::StringExecFns;

verus! {

/// The character of a decimal digit.
pub open spec fn digit_char(d: nat) -> char {
    if d == 0 { '0' }
    else if d == 1 { '1' }
    else if d == 2 { '2' }
    else if d == 3 { '3' }
    else if d == 4 { '4' }
    else if d == 5 { '5' }
    else if d == 6 { '6' }
    else if d == 7 { '7' }
    else if d == 8 { '8' }
    else { '9' }
}

/// The decimal numeral of a natural number, without leading zeros.
pub open spec fn decimal(n: nat) -> Seq<char>
    decreases n,
{
    if n < 10 {
        seq![digit_char(n)]
    } else {
        decimal(n / 10).push(digit_char(n % 10))
    }
}

/// The decimal numeral of an integer, with a leading minus sign when negative.
pub open spec fn signed_decimal(i: int) -> Seq<char> {
    if i < 0 {
        seq!['-'] + decimal((-i) as nat)
    } else {
        decimal(i as nat)
    }
}

/// The one-character text of a decimal digit.
fn digit_text(d: u64) -> (r: &'static str)
    requires
        d < 10,
    ensures
        r@ == seq![digit_char(d as nat)],
{
    proof {
        reveal_strlit("0");
        reveal_strlit("1");
        reveal_strlit("2");
        reveal_strlit("3");
        reveal_strlit("4");
        reveal_strlit("5");
        reveal_strlit("6");
        reveal_strlit("7");
        reveal_strlit("8");
        reveal_strlit("9");
    }
    let r = if d == 0 {
        "0"
    } else if d == 1 {
        "1"
    } else if d == 2 {
        "2"
    } else if d == 3 {
        "3"
    } else if d == 4 {
        "4"
    } else if d == 5 {
        "5"
    } else if d == 6 {
        "6"
    } else if d == 7 {
        "7"
    } else if d == 8 {
        "8"
    } else {
        "9"
    };
    proof {
        assert(r@ =~= seq![digit_char(d as nat)]);
    }
    r
}

/// The decimal numeral of `n`.
pub fn u64_text(n: u64) -> (r: String)
    ensures
        r@ == decimal(n as nat),
    decreases n,
{
    if n < 10 {
        let mut r = String::new();
        r.append(digit_text(n));
        proof {
            assert(r@ =~= decimal(n as nat));
        }
        r
    } else {
        let mut r = u64_text(n / 10);
        r.append(digit_text(n % 10));
        proof {
            assert(r@ =~= decimal(n as nat));
        }
        r
    }
}

/// The decimal numeral of `n`.
pub(crate) fn usize_text(n: usize) -> (r: String)
    ensures
        r@ == decimal(n as nat),
{
    u64_text(n as u64)
}

/// The decimal numeral of `n`, with a leading minus sign when negative.
pub fn i64_text(n: i64) -> (r: String)
    ensures
        r@ == signed_decimal(n as int),
{
    if n < 0 {
        let magnitude = (0 - (n as i128)) as u64;
        let mut r = String::new();
        proof {
            reveal_strlit("-");
        }
        r.append("-");
        r.append(u64_text(magnitude).as_str());
        proof {
            assert(r@ =~= signed_decimal(n as int));
        }
        r
    } else {
        u64_text(n as u64)
    }
}

/// One record of the symbol table.
#[derive(Clone, Debug)]
pub struct SymElem {
    pub original: i64,
    pub witness: i64,
    pub node_id: i64,
    pub symbol: String,
}

/// `original,witness,node_id,symbol`.
pub open spec fn sym_line(e: SymElem) -> Seq<char> {
    signed_decimal(e.original as int) + seq![','] + signed_decimal(e.witness as int) + seq![',']
        + signed_decimal(e.node_id as int) + seq![','] + e.symbol@
}

/// The symbol table: one line per record, each ended by a newline.
pub open spec fn sym_text(s: Seq<SymElem>) -> Seq<char>
    decreases s.len(),
{
    if s.len() == 0 {
        seq![]
    } else {
        sym_text(s.drop_last()) + sym_line(s.last()) + seq!['\n']
    }
}

impl SymElem {
    /// The record as one line of the symbol table.
    pub fn to_string(&self) -> (r: String)
        ensures
            r@ == sym_line(*self),
    {
        let mut r = i64_text(self.original);
        proof {
            reveal_strlit(",");
        }
        r.append(",");
        r.append(i64_text(self.witness).as_str());
        r.append(",");
        r.append(i64_text(self.node_id).as_str());
        r.append(",");
        r.append(self.symbol.as_str());
        r
    }
}

/// The symbol table text of the given records, in order.
pub fn sym_file_text(elems: &Vec<SymElem>) -> (r: String)
    ensures
        r@ == sym_text(elems@),
{
    let mut r = String::new();
    let mut k: usize = 0;
    proof {
        assert(elems@.subrange(0, 0) =~= Seq::<SymElem>::empty());
    }
    while k < elems.len()
        invariant
            0 <= k <= elems@.len(),
            r@ == sym_text(elems@.subrange(0, k as int)),
        decreases elems@.len() - k,
    {
        proof {
            assert(elems@.subrange(0, k as int + 1).drop_last() =~= elems@.subrange(0, k as int));
            reveal_strlit("\n");
        }
        r.append(elems[k].to_string().as_str());
        r.append("\n");
        proof {
            let t = elems@.subrange(0, k as int + 1);
            assert(t.last() == elems@[k as int]);
            assert(r@ =~= sym_text(t));
        }
        k = k + 1;
    }
    proof {
        assert(elems@.subrange(0, elems@.len() as int) =~= elems@);
    }
    r
}

/// A rank-1 constraint `a · b = c`; each side is a sparse linear combination:
/// signal ids, each with its coefficient as decimal text (when an id repeats,
/// the JSON object keeps the last coefficient given for it).
#[derive(Clone, Debug)]
pub struct Constraint {
    pub a: Vec<(usize, String)>,
    pub b: Vec<(usize, String)>,
    pub c: Vec<(usize, String)>,
}

/// A linear combination as plain values.
pub open spec fn combination_view(s: Seq<(usize, String)>) -> Seq<(usize, Seq<char>)> {
    s.map_values(|e: (usize, String)| (e.0, e.1@))
}

/// The compact JSON text of a constraint given by its three linear combinations:
/// an array of three objects from signal id to coefficient.
pub uninterp spec fn constraint_json_text(
    a: Seq<(usize, Seq<char>)>,
    b: Seq<(usize, Seq<char>)>,
    c: Seq<(usize, Seq<char>)>,
) -> Seq<char>;

/// The JSON text of a constraint.
pub open spec fn constraint_json(c: Constraint) -> Seq<char> {
    constraint_json_text(combination_view(c.a@), combination_view(c.b@), combination_view(c.c@))
}

/// Relies on serde_json: each linear combination becomes a `Value::Object`
/// (a `Map` keyed by the decimal signal id, holding the coefficient as a
/// `Value::String`), the three go into a `Value::Array`, and `Value::to_string`
/// writes it compactly; the text depends on the entries alone.
#[verifier::external_body]
fn serialize_constraint(c: &Constraint) -> (r: String)
    ensures
        r@ == constraint_json_text(combination_view(c.a@), combination_view(c.b@), combination_view(c.c@)),
{
    let mut parts = Vec::new();
    for lc in [&c.a, &c.b, &c.c] {
        let mut object = serde_json::Map::new();
        for (id, coefficient) in lc.iter() {
            object.insert(id.to_string(), serde_json::Value::String(coefficient.clone()));
        }
        parts.push(serde_json::Value::Object(object));
    }
    serde_json::Value::Array(parts).to_string()
}

/// The body of the constraints document: one constraint per line.
pub open spec fn constraint_lines(s: Seq<Constraint>) -> Seq<char>
    decreases s.len(),
{
    if s.len() == 0 {
        seq![]
    } else if s.len() == 1 {
        seq!['\n'] + constraint_json(s[0])
    } else {
        constraint_lines(s.drop_last()) + seq![',', '\n'] + constraint_json(s.last())
    }
}

/// The whole constraints document.
pub open spec fn constraints_document(s: Seq<Constraint>) -> Seq<char> {
    seq!['{', '\n', '"', 'c', 'o', 'n', 's', 't', 'r', 'a', 'i', 'n', 't', 's', '"', ':', ' ', '[']
        + constraint_lines(s) + seq!['\n', ']', '\n', '}']
}

/// Writes a constraint as a JSON array of its three linear combinations.
pub fn constraint_to_json(c: &Constraint) -> (r: String)
    ensures
        r@ == constraint_json(*c),
{
    serialize_constraint(c)
}

/// The constraints document of a flat constraint list, in order.
pub fn port_constraints(constraints: &Vec<Constraint>) -> (r: String)
    ensures
        r@ == constraints_document(constraints@),
{
    proof {
        reveal_strlit("{\n\"constraints\": [");
        reveal_strlit("\n");
        reveal_strlit(",\n");
        reveal_strlit("\n]\n}");
    }
    let mut r = String::new();
    r.append("{\n\"constraints\": [");
    let ghost head = r@;
    let mut k: usize = 0;
    while k < constraints.len()
        invariant
            0 <= k <= constraints@.len(),
            head == seq!['{', '\n', '"', 'c', 'o', 'n', 's', 't', 'r', 'a', 'i', 'n', 't', 's', '"', ':', ' ', '['],
            r@ == head + constraint_lines(constraints@.subrange(0, k as int)),
        decreases constraints@.len() - k,
    {
        proof {
            reveal_strlit("\n");
            reveal_strlit(",\n");
        }
        if k == 0 {
            r.append("\n");
        } else {
            r.append(",\n");
        }
        r.append(constraint_to_json(&constraints[k]).as_str());
        proof {
            let t = constraints@.subrange(0, k as int + 1);
            assert(t.drop_last() =~= constraints@.subrange(0, k as int));
            assert(t.last() == constraints@[k as int]);
            if k == 0 {
                assert(t.len() == 1);
                assert(constraint_lines(constraints@.subrange(0, 0)) == Seq::<char>::empty());
            }
            assert(r@ =~= head + constraint_lines(t));
        }
        k = k + 1;
    }
    r.append("\n]\n}");
    proof {
        assert(constraints@.subrange(0, constraints@.len() as int) =~= constraints@);
        assert(r@ =~= constraints_document(constraints@));
    }
    r
}

/// A constraint as plain values.
pub open spec fn constraint_view(c: Constraint) -> (
    Seq<(usize, Seq<char>)>,
    Seq<(usize, Seq<char>)>,
    Seq<(usize, Seq<char>)>,
) {
    (combination_view(c.a@), combination_view(c.b@), combination_view(c.c@))
}

/// A symbol-table record as plain values.
pub open spec fn sym_view(e: SymElem) -> (i64, i64, i64, Seq<char>) {
    (e.original, e.witness, e.node_id, e.symbol@)
}

proof fn lemma_constraint_lines_view(s: Seq<Constraint>, t: Seq<Constraint>)
    requires
        s.map_values(|c: Constraint| constraint_view(c)) == t.map_values(|c: Constraint| constraint_view(c)),
    ensures
        constraint_lines(s) == constraint_lines(t),
    decreases s.len(),
{
    let sv = s.map_values(|c: Constraint| constraint_view(c));
    let tv = t.map_values(|c: Constraint| constraint_view(c));
    assert(s.len() == sv.len());
    if s.len() > 0 {
        let sd = s.drop_last();
        let td = t.drop_last();
        let sdv = sd.map_values(|c: Constraint| constraint_view(c));
        let tdv = td.map_values(|c: Constraint| constraint_view(c));
        assert(sdv =~= tdv) by {
            assert forall|i: int| 0 <= i < sd.len() implies #[trigger] sdv[i] == tdv[i] by {
                assert(sv[i] == tv[i]);
            }
        }
        lemma_constraint_lines_view(sd, td);
        let k = s.len() - 1;
        assert(sv[k] == tv[k]);
        assert(sv[0] == tv[0]);
    }
}

proof fn lemma_sym_text_view(s: Seq<SymElem>, t: Seq<SymElem>)
    requires
        s.map_values(|e: SymElem| sym_view(e)) == t.map_values(|e: SymElem| sym_view(e)),
    ensures
        sym_text(s) == sym_text(t),
    decreases s.len(),
{
    let sv = s.map_values(|e: SymElem| sym_view(e));
    let tv = t.map_values(|e: SymElem| sym_view(e));
    assert(s.len() == sv.len());
    if s.len() > 0 {
        let sd = s.drop_last();
        let td = t.drop_last();
        let sdv = sd.map_values(|e: SymElem| sym_view(e));
        let tdv = td.map_values(|e: SymElem| sym_view(e));
        assert(sdv =~= tdv) by {
            assert forall|i: int| 0 <= i < sd.len() implies #[trigger] sdv[i] == tdv[i] by {
                assert(sv[i] == tv[i]);
            }
        }
        lemma_sym_text_view(sd, td);
        assert(sv[s.len() - 1] == tv[s.len() - 1]);
    }
}

/// Exporting is deterministic: constraint lists and symbol tables that hold
/// the same values produce byte-identical constraint documents and symbol
/// table texts.
pub proof fn lemma_export_deterministic(
    c1: Seq<Constraint>,
    c2: Seq<Constraint>,
    s1: Seq<SymElem>,
    s2: Seq<SymElem>,
)
    requires
        c1.map_values(|c: Constraint| constraint_view(c)) == c2.map_values(|c: Constraint| constraint_view(c)),
        s1.map_values(|e: SymElem| sym_view(e)) == s2.map_values(|e: SymElem| sym_view(e)),
    ensures
        constraints_document(c1) == constraints_document(c2),
        sym_text(s1) == sym_text(s2),
{
    lemma_constraint_lines_view(c1, c2);
    lemma_sym_text_view(s1, s2);
}

/// `"signal" : data`.
pub open spec fn correspondence(e: (String, String)) -> Seq<char> {
    seq!['"'] + e.0@ + seq!['"', ' ', ':', ' '] + e.1@
}

/// The signal-name map: the constant-one signal at index 0, then one line per
/// entry, each entry's data written as it is.
pub open spec fn signals_document(s: Seq<(String, String)>) -> Seq<char>
    decreases s.len(),
{
    if s.len() == 0 {
        seq!['{', '\n', '"', 's', 'i', 'g', 'n', 'a', 'l', 'N', 'a', 'm', 'e', '2', 'I', 'd', 'x', '"', ':', ' ', '{',
            '\n', '"', 'o', 'n', 'e', '"', ' ', ':', ' ', '"', '0', '"']
    } else {
        signals_document(s.drop_last()) + seq![',', '\n'] + correspondence(s.last())
    }
}

/// The body of the substitution map: entries separated by `,` and a newline.
pub open spec fn substitution_lines(s: Seq<(String, String)>) -> Seq<char>
    decreases s.len(),
{
    if s.len() == 0 {
        seq![]
    } else if s.len() == 1 {
        seq!['\n'] + correspondence(s[0])
    } else {
        substitution_lines(s.drop_last()) + seq![',', '\n'] + correspondence(s.last())
    }
}

fn correspondence_text(e: &(String, String)) -> (r: String)
    ensures
        r@ == correspondence(*e),
{
    proof {
        reveal_strlit("\"");
        reveal_strlit("\" : ");
    }
    let mut r = String::new();
    r.append("\"");
    r.append(e.0.as_str());
    r.append("\" : ");
    r.append(e.1.as_str());
    proof {
        assert(r@ =~= correspondence(*e));
    }
    r
}

/// The signal-name map document of the given (signal, data) entries, in order.
pub fn signals_json(entries: &Vec<(String, String)>) -> (r: String)
    ensures
        r@ == signals_document(entries@) + seq!['\n', '}', '\n', '}'],
{
    proof {
        reveal_strlit("{\n\"signalName2Idx\": {\n\"one\" : \"0\"");
        reveal_strlit("\n}\n}");
    }
    let mut r = String::new();
    r.append("{\n\"signalName2Idx\": {\n\"one\" : \"0\"");
    let mut k: usize = 0;
    proof {
        assert(entries@.subrange(0, 0) =~= Seq::<(String, String)>::empty());
        assert(r@ =~= signals_document(entries@.subrange(0, 0)));
    }
    while k < entries.len()
        invariant
            0 <= k <= entries@.len(),
            r@ == signals_document(entries@.subrange(0, k as int)),
        decreases entries@.len() - k,
    {
        proof {
            reveal_strlit(",\n");
            let t = entries@.subrange(0, k as int + 1);
            assert(t.drop_last() =~= entries@.subrange(0, k as int));
            assert(t.last() == entries@[k as int]);
        }
        r.append(",\n");
        r.append(correspondence_text(&entries[k]).as_str());
        proof {
            assert(r@ =~= signals_document(entries@.subrange(0, k as int + 1)));
        }
        k = k + 1;
    }
    r.append("\n}\n}");
    proof {
        assert(entries@.subrange(0, entries@.len() as int) =~= entries@);
    }
    r
}

/// The substitution map document of the given (signal, substitution) entries, in order.
pub fn substitutions_json(entries: &Vec<(String, String)>) -> (r: String)
    ensures
        r@ == seq!['{', '\n', '"', 's', 'u', 'b', 's', 't', 'i', 't', 'u', 't', 'i', 'o', 'n', '"', ':', ' ', '{']
            + substitution_lines(entries@) + seq!['\n', '}', '\n', '}'],
{
    proof {
        reveal_strlit("{\n\"substitution\": {");
        reveal_strlit("\n}\n}");
    }
    let mut r = String::new();
    r.append("{\n\"substitution\": {");
    let ghost head = r@;
    let mut k: usize = 0;
    proof {
        assert(entries@.subrange(0, 0) =~= Seq::<(String, String)>::empty());
        assert(r@ =~= head + substitution_lines(entries@.subrange(0, 0)));
    }
    while k < entries.len()
        invariant
            0 <= k <= entries@.len(),
            head == seq!['{', '\n', '"', 's', 'u', 'b', 's', 't', 'i', 't', 'u', 't', 'i', 'o', 'n', '"', ':', ' ', '{'],
            r@ == head + substitution_lines(entries@.subrange(0, k as int)),
        decreases entries@.len() - k,
    {
        proof {
            reveal_strlit("\n");
            reveal_strlit(",\n");
            let t = entries@.subrange(0, k as int + 1);
            assert(t.drop_last() =~= entries@.subrange(0, k as int));
            assert(t.last() == entries@[k as int]);
        }
        if k == 0 {
            r.append("\n");
        } else {
            r.append(",\n");
        }
        r.append(correspondence_text(&entries[k]).as_str());
        proof {
            let t = entries@.subrange(0, k as int + 1);
            if k == 0 {
                assert(t.len() == 1);
                assert(substitution_lines(entries@.subrange(0, 0)) == Seq::<char>::empty());
            }
            assert(r@ =~= head + substitution_lines(t));
        }
        k = k + 1;
    }
    r.append("\n}\n}");
    proof {
        assert(entries@.subrange(0, entries@.len() as int) =~= entries@);
        assert(r@ =~= head + substitution_lines(entries@) + seq!['\n', '}', '\n', '}']);
    }
    r
}

/// Something that can be written out as the three constraint artifacts: the
/// binary constraint file, the constraints document, and the symbol table.
pub trait ConstraintExporter {
    fn r1cs(&self, out: &str) -> Result<(), ()>;

    fn json_constraints(&self, writer: &DebugWriter) -> Result<(), ()>;

    fn sym(&self, out: &str) -> Result<(), ()>;
}

/// Where the constraints document goes.
#[derive(Clone, Debug)]
pub struct DebugWriter {
    pub json_constraints: String,
}

impl DebugWriter {
    pub fn new(c: String) -> (r: DebugWriter)
        ensures
            r.json_constraints == c,
    {
        DebugWriter { json_constraints: c }
    }
}

} // verus!
