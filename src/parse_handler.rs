//! The assembler: a symbol table seeded with the platform's symbols, the
//! label pass, label stripping, and the encoding pass.
use vstd::prelude::*;
use crate::encoder::{
    c_word, copy_range, decimal, lemma_parse_decimal, parse_number, parse_u16, translate_c_command,
};
use crate::source::{chars_of, file_cleaner, lines_view, normalized};

verus! {

/// The symbols every program starts with: the register aliases `R0`-`R15`,
/// the segment bases, the screen buffer and the keyboard register.
pub open spec fn predefined() -> Map<Seq<char>, u16> {
    map![
        "SP"@ => 0u16, "LCL"@ => 1u16, "ARG"@ => 2u16, "THIS"@ => 3u16, "THAT"@ => 4u16,
        "R0"@ => 0u16, "R1"@ => 1u16, "R2"@ => 2u16, "R3"@ => 3u16, "R4"@ => 4u16,
        "R5"@ => 5u16, "R6"@ => 6u16, "R7"@ => 7u16, "R8"@ => 8u16, "R9"@ => 9u16,
        "R10"@ => 10u16, "R11"@ => 11u16, "R12"@ => 12u16, "R13"@ => 13u16,
        "R14"@ => 14u16, "R15"@ => 15u16, "SCREEN"@ => 16384u16, "KBD"@ => 24576u16,
    ]
}

/// Whether a line defines a label.
pub open spec fn is_label(l: Seq<char>) -> bool {
    l.len() > 0 && l[0] == '('
}

/// Whether `c` is a parenthesis.
pub open spec fn is_paren(c: char) -> bool {
    c == '(' || c == ')'
}

/// `l` without its leading parentheses.
pub open spec fn trim_front(l: Seq<char>) -> Seq<char>
    decreases l.len(),
{
    if l.len() > 0 && is_paren(l[0]) {
        trim_front(l.drop_first())
    } else {
        l
    }
}

/// `l` without its trailing parentheses.
pub open spec fn trim_back(l: Seq<char>) -> Seq<char>
    decreases l.len(),
{
    if l.len() > 0 && is_paren(l.last()) {
        trim_back(l.drop_last())
    } else {
        l
    }
}

/// The name a label line defines: the line without the parentheses around it.
pub open spec fn label_name(l: Seq<char>) -> Seq<char> {
    trim_back(trim_front(l))
}

/// The table after the label pass over `lines`, and how many labels it bound.
/// A new label is bound to its line's index less the labels bound before it;
/// a label already in the table is left as it is and binds nothing.
pub open spec fn label_pass(m: Map<Seq<char>, u16>, lines: Seq<Seq<char>>) -> (Map<Seq<char>, u16>, nat)
    decreases lines.len(),
{
    if lines.len() == 0 {
        (m, 0)
    } else {
        let (m1, shift) = label_pass(m, lines.drop_last());
        let l = lines.last();
        if is_label(l) && !m1.contains_key(label_name(l)) {
            (m1.insert(label_name(l), (lines.len() - 1 - shift) as u16), shift + 1)
        } else {
            (m1, shift)
        }
    }
}

/// The lines that are instructions, in order.
pub open spec fn strip_labels(lines: Seq<Seq<char>>) -> Seq<Seq<char>> {
    lines.filter(|l: Seq<char>| !is_label(l))
}

/// The word of one instruction line, with the table and next variable
/// address after it. An address line holds a decimal literal, a bound symbol,
/// or a new variable, which is bound to the next variable address.
pub open spec fn encode_line(m: Map<Seq<char>, u16>, next: u16, l: Seq<char>) -> (u16, Map<Seq<char>, u16>, u16) {
    if l.len() > 0 && l[0] == '@' {
        let r = l.drop_first();
        match parse_u16(r) {
            Some(v) => (v, m, next),
            None => if m.contains_key(r) {
                (m[r], m, next)
            } else {
                (next, m.insert(r, next), (next + 1) as u16)
            },
        }
    } else {
        (c_word(l), m, next)
    }
}

/// The words of `lines` encoded in order, with the final table and next
/// variable address.
pub open spec fn encode_lines(m: Map<Seq<char>, u16>, next: u16, lines: Seq<Seq<char>>) -> (Seq<u16>, Map<Seq<char>, u16>, u16)
    decreases lines.len(),
{
    if lines.len() == 0 {
        (seq![], m, next)
    } else {
        let (ws, m1, n1) = encode_lines(m, next, lines.drop_last());
        let (w, m2, n2) = encode_line(m1, n1, lines.last());
        (ws.push(w), m2, n2)
    }
}

/// A whole assembly run on program text `t`, from table `m` and next
/// variable address `next`: the words, the final table and next address.
pub open spec fn assemble(m: Map<Seq<char>, u16>, next: u16, t: Seq<char>) -> (Seq<u16>, Map<Seq<char>, u16>, u16) {
    let lines = normalized(t);
    encode_lines(label_pass(m, lines).0, next, strip_labels(lines))
}

pub proof fn lemma_label_pass_shift(m: Map<Seq<char>, u16>, lines: Seq<Seq<char>>)
    ensures
        label_pass(m, lines).1 <= lines.len(),
    decreases lines.len(),
{
    if lines.len() > 0 {
        lemma_label_pass_shift(m, lines.drop_last());
    }
}

/// An address line holding the numeral of any `n` up to 32767 encodes to
/// `n`, and leaves the table and the next variable address as they were.
pub proof fn lemma_literal_address(m: Map<Seq<char>, u16>, next: u16, n: nat)
    requires
        n <= 32767,
    ensures
        encode_line(m, next, seq!['@'] + decimal(n)) == (n as u16, m, next),
{
    lemma_parse_decimal(n);
    assert((seq!['@'] + decimal(n)).drop_first() =~= decimal(n));
}

/// An address line naming a symbol `s` that is no numeral: if `s` is bound,
/// the word is its address and nothing changes; otherwise `s` is bound to
/// the next variable address, which is the word, and that address advances
/// by one.
pub proof fn lemma_symbol_address(m: Map<Seq<char>, u16>, next: u16, s: Seq<char>)
    requires
        parse_u16(s) is None,
    ensures
        encode_line(m, next, seq!['@'] + s) == (if m.contains_key(s) {
            (m[s], m, next)
        } else {
            (next, m.insert(s, next), (next + 1) as u16)
        }),
{
    assert((seq!['@'] + s).drop_first() =~= s);
}

/// Encoding gives one word per line, never changes a binding, and only
/// advances the next variable address, by at most one per line; each symbol
/// it binds gets an address taken from that advance.
pub proof fn lemma_encoding_keeps_bindings(m: Map<Seq<char>, u16>, next: u16, lines: Seq<Seq<char>>)
    requires
        next + lines.len() <= 65535,
    ensures
        ({
            let (ws, m2, n2) = encode_lines(m, next, lines);
            &&& ws.len() == lines.len()
            &&& next <= n2 <= next + lines.len()
            &&& forall|k: Seq<char>| #[trigger]
                m.contains_key(k) ==> m2.contains_key(k) && m2[k] == m[k]
            &&& forall|k: Seq<char>| #[trigger]
                m2.contains_key(k) && !m.contains_key(k) ==> next <= m2[k] < n2
        }),
    decreases lines.len(),
{
    if lines.len() > 0 {
        lemma_encoding_keeps_bindings(m, next, lines.drop_last());
    }
}

/// The distinct names of `syms` in the order of their first occurrence.
pub open spec fn first_seen(syms: Seq<Seq<char>>) -> Seq<Seq<char>>
    decreases syms.len(),
{
    if syms.len() == 0 {
        seq![]
    } else {
        let prev = first_seen(syms.drop_last());
        if prev.contains(syms.last()) {
            prev
        } else {
            prev.push(syms.last())
        }
    }
}

/// Every name of `syms` occurs in its first occurrences and back.
pub proof fn lemma_first_seen(syms: Seq<Seq<char>>)
    ensures
        first_seen(syms).len() <= syms.len(),
        forall|x: Seq<char>| #[trigger] first_seen(syms).contains(x) ==> syms.contains(x),
        forall|x: Seq<char>| #[trigger] syms.contains(x) ==> first_seen(syms).contains(x),
    decreases syms.len(),
{
    if syms.len() > 0 {
        let prev = syms.drop_last();
        let s = syms.last();
        lemma_first_seen(prev);
        let fs0 = first_seen(prev);
        let fs = first_seen(syms);
        assert forall|x: Seq<char>| #[trigger] syms.contains(x) implies fs.contains(x) by {
            let i = choose|i: int| 0 <= i < syms.len() && syms[i] == x;
            if i < prev.len() {
                assert(prev[i] == x);
                assert(prev.contains(x));
                let k = choose|k: int| 0 <= k < fs0.len() && fs0[k] == x;
                assert(fs[k] == x);
            } else if !fs0.contains(s) {
                assert(fs[fs0.len() as int] == s);
            }
        }
        assert forall|x: Seq<char>| #[trigger] fs.contains(x) implies syms.contains(x) by {
            let k = choose|k: int| 0 <= k < fs.len() && fs[k] == x;
            if k < fs0.len() {
                assert(fs0[k] == x);
                assert(fs0.contains(x));
                let i = choose|i: int| 0 <= i < prev.len() && prev[i] == x;
                assert(syms[i] == x);
            } else {
                assert(syms[syms.len() - 1] == x);
            }
        }
    }
}

/// Whether `l` is an address line whose reference is no numeral.
pub open spec fn is_symbol_line(l: Seq<char>) -> bool {
    l.len() > 0 && l[0] == '@' && parse_u16(l.drop_first()) is None
}

/// The names, with repeats and in order, that the address lines of `lines`
/// refer to and that `m` leaves unbound.
pub open spec fn new_refs(m: Map<Seq<char>, u16>, lines: Seq<Seq<char>>) -> Seq<Seq<char>>
    decreases lines.len(),
{
    if lines.len() == 0 {
        seq![]
    } else {
        let prev = new_refs(m, lines.drop_last());
        let l = lines.last();
        if is_symbol_line(l) && !m.contains_key(l.drop_first()) {
            prev.push(l.drop_first())
        } else {
            prev
        }
    }
}

/// Encoding binds the names that its address lines refer to and the table
/// leaves unbound (labels and predefined symbols included in the table) in
/// the order they first occur, to consecutive addresses from the next
/// variable address on. It keeps every earlier binding, and the word of every
/// address line that names a symbol is that symbol's address, however often
/// it recurs.
pub proof fn lemma_variables_in_order(m: Map<Seq<char>, u16>, next: u16, lines: Seq<Seq<char>>)
    requires
        next + lines.len() <= 65535,
    ensures
        ({
            let (ws, m2, n2) = encode_lines(m, next, lines);
            let fs = first_seen(new_refs(m, lines));
            &&& new_refs(m, lines).len() <= lines.len()
            &&& n2 == next + fs.len()
            &&& forall|k: int| 0 <= k < fs.len() ==> m2.contains_key(#[trigger] fs[k]) && m2[fs[k]] == next + k
            &&& ws.len() == lines.len()
            &&& forall|i: int| 0 <= i < lines.len() && is_symbol_line(#[trigger] lines[i]) ==> m2.contains_key(
                lines[i].drop_first()) && ws[i] == m2[lines[i].drop_first()]
            &&& forall|x: Seq<char>| #[trigger] m2.contains_key(x) <==> m.contains_key(x) || fs.contains(x)
            &&& forall|x: Seq<char>| #[trigger] m.contains_key(x) ==> m2[x] == m[x]
        }),
    decreases lines.len(),
{
    if lines.len() > 0 {
        let prev = lines.drop_last();
        let l = lines.last();
        let r = l.drop_first();
        lemma_variables_in_order(m, next, prev);
        lemma_first_seen(new_refs(m, prev));
        lemma_first_seen(new_refs(m, lines));
        let refs0 = new_refs(m, prev);
        let refs = new_refs(m, lines);
        let fs0 = first_seen(refs0);
        let fs = first_seen(refs);
        let (ws1, m1, n1) = encode_lines(m, next, prev);
        let (ws, m2, n2) = encode_lines(m, next, lines);
        assert forall|i: int| 0 <= i < prev.len() implies #[trigger] lines[i] == prev[i] by {}
        if is_symbol_line(l) {
            lemma_symbol_address(m1, n1, r);
            assert(l =~= seq!['@'] + r);
        }
        if is_symbol_line(l) && !m.contains_key(r) {
            assert(refs == refs0.push(r));
            assert(refs.last() == r && refs.drop_last() == refs0);
            if fs0.contains(r) {
                assert(m1.contains_key(r));
                assert(fs == fs0 && m2 == m1 && n2 == n1 && ws == ws1.push(m1[r]));
            } else {
                assert(!m1.contains_key(r));
                assert(fs == fs0.push(r) && m2 == m1.insert(r, n1) && n2 == n1 + 1 && ws == ws1.push(n1));
                assert forall|k: int| 0 <= k < fs.len() implies m2.contains_key(#[trigger] fs[k]) && m2[fs[k]]
                    == next + k by {
                    if k < fs0.len() {
                        assert(fs0.contains(fs0[k]));
                        assert(fs[k] == fs0[k]);
                        assert(m1.contains_key(fs0[k]));
                    }
                }
                assert forall|i: int| 0 <= i < lines.len() && is_symbol_line(#[trigger] lines[i]) implies m2.contains_key(
                    lines[i].drop_first()) && ws[i] == m2[lines[i].drop_first()] by {
                    if i < prev.len() {
                        assert(is_symbol_line(prev[i]));
                        assert(m1.contains_key(prev[i].drop_first()));
                    }
                }
                assert forall|x: Seq<char>| #[trigger] m2.contains_key(x) <==> m.contains_key(x)
                    || fs.contains(x) by {
                    if fs.contains(x) && x != r {
                        let k = choose|k: int| 0 <= k < fs.len() && fs[k] == x;
                        assert(fs0[k] == x);
                        assert(fs0.contains(x));
                    }
                    if fs0.contains(x) {
                        let k = choose|k: int| 0 <= k < fs0.len() && fs0[k] == x;
                        assert(fs[k] == x);
                    }
                    if x == r {
                        assert(fs[fs0.len() as int] == r);
                    }
                }
            }
        } else {
            assert(refs == refs0);
            if is_symbol_line(l) {
                assert(m1.contains_key(r));
            }
        }
        assert forall|i: int| 0 <= i < lines.len() && is_symbol_line(#[trigger] lines[i]) implies m2.contains_key(
            lines[i].drop_first()) && ws[i] == m2[lines[i].drop_first()] by {
            if i < prev.len() {
                assert(is_symbol_line(prev[i]));
                assert(m1.contains_key(prev[i].drop_first()));
            }
        }
    }
}

/// Two address lines of one program that name the same symbol, no numeral,
/// encode to the same word: a name is bound once and then only looked up.
pub proof fn lemma_repeated_symbol(m: Map<Seq<char>, u16>, next: u16, lines: Seq<Seq<char>>, k1: int, k2: int)
    requires
        next + lines.len() <= 65535,
        0 <= k1 < k2 < lines.len(),
        is_symbol_line(lines[k1]),
        lines[k2] == lines[k1],
    ensures
        encode_lines(m, next, lines).0[k1] == encode_lines(m, next, lines).0[k2],
{
    lemma_variables_in_order(m, next, lines);
}

/// Every name the label pass binds was already bound or is the name of one
/// of the label lines.
pub proof fn lemma_label_pass_domain(m: Map<Seq<char>, u16>, lines: Seq<Seq<char>>)
    ensures
        forall|k: Seq<char>| #[trigger]
            label_pass(m, lines).0.contains_key(k) ==> m.contains_key(k) || exists|q: int|
                0 <= q < lines.len() && is_label(lines[q]) && label_name(lines[q]) == k,
    decreases lines.len(),
{
    if lines.len() > 0 {
        let prev = lines.drop_last();
        lemma_label_pass_domain(m, prev);
        assert forall|k: Seq<char>| #[trigger]
            label_pass(m, lines).0.contains_key(k) implies m.contains_key(k) || exists|q: int|
                0 <= q < lines.len() && is_label(lines[q]) && label_name(lines[q]) == k by {
            if label_pass(m, prev).0.contains_key(k) {
                if !m.contains_key(k) {
                    let q = choose|q: int|
                        0 <= q < prev.len() && is_label(prev[q]) && label_name(prev[q]) == k;
                    assert(lines[q] == prev[q]);
                }
            } else {
                assert(label_name(lines[lines.len() - 1]) == k);
            }
        }
    }
}

/// With every label line's name new and unbound, the label pass binds one
/// name per label line: its count and the instruction lines add up to all
/// lines.
pub proof fn lemma_label_pass_count(m: Map<Seq<char>, u16>, lines: Seq<Seq<char>>)
    requires
        forall|k: int|
            0 <= k < lines.len() && is_label(lines[k]) ==> !m.contains_key(
                #[trigger] label_name(lines[k]),
            ),
        forall|k1: int, k2: int|
            0 <= k1 < k2 < lines.len() && is_label(lines[k1]) && is_label(lines[k2])
                ==> label_name(lines[k1]) != label_name(lines[k2]),
    ensures
        label_pass(m, lines).1 + strip_labels(lines).len() == lines.len(),
    decreases lines.len(),
{
    reveal(Seq::filter);
    if lines.len() > 0 {
        let prev = lines.drop_last();
        let last = lines.len() - 1;
        assert forall|k: int| 0 <= k < prev.len() && is_label(prev[k]) implies !m.contains_key(
            #[trigger] label_name(prev[k])) by {
            assert(prev[k] == lines[k]);
        }
        assert forall|k1: int, k2: int|
            0 <= k1 < k2 < prev.len() && is_label(prev[k1]) && is_label(prev[k2]) implies label_name(
            prev[k1]) != label_name(prev[k2]) by {
            assert(prev[k1] == lines[k1] && prev[k2] == lines[k2]);
        }
        lemma_label_pass_count(m, prev);
        lemma_label_pass_domain(m, prev);
        if is_label(lines[last]) {
            if label_pass(m, prev).0.contains_key(label_name(lines[last])) {
                assert(!m.contains_key(label_name(lines[last])));
                let q = choose|q: int|
                    0 <= q < prev.len() && is_label(prev[q]) && label_name(prev[q]) == label_name(
                        lines[last],
                    );
                assert(prev[q] == lines[q]);
            }
        }
    }
}

/// The label pass over a longer program keeps every binding it made over a
/// prefix of it.
pub proof fn lemma_label_pass_prefix(m: Map<Seq<char>, u16>, lines: Seq<Seq<char>>, p: int)
    requires
        0 <= p <= lines.len(),
    ensures
        forall|k: Seq<char>| #[trigger]
            label_pass(m, lines.take(p)).0.contains_key(k) ==> label_pass(m, lines).0.contains_key(
                k,
            ) && label_pass(m, lines).0[k] == label_pass(m, lines.take(p)).0[k],
    decreases lines.len(),
{
    if p == lines.len() {
        assert(lines.take(p) =~= lines);
    } else {
        let prev = lines.drop_last();
        assert(prev.take(p) =~= lines.take(p));
        lemma_label_pass_prefix(m, prev, p);
    }
}

/// Label lines add nothing to the instruction lines of a prefix.
proof fn lemma_strip_over_labels(lines: Seq<Seq<char>>, i: int, j: int)
    requires
        0 <= i <= j <= lines.len(),
        forall|k: int| i <= k < j ==> is_label(#[trigger] lines[k]),
    ensures
        strip_labels(lines.take(j)) == strip_labels(lines.take(i)),
    decreases j - i,
{
    reveal(Seq::filter);
    if i < j {
        lemma_strip_over_labels(lines, i, j - 1);
        assert(lines.take(j).drop_last() =~= lines.take(j - 1));
        assert(lines.take(j).last() == lines[j - 1]);
    }
}

/// A label defined right before a run of instruction lines (with only label
/// lines between) is bound to the address of the first of them once labels
/// are stripped, provided that it and every label before it is new and
/// unbound.
pub proof fn lemma_label_address(m: Map<Seq<char>, u16>, lines: Seq<Seq<char>>, i: int, j: int)
    requires
        0 <= i < j < lines.len(),
        lines.len() <= 65536,
        is_label(lines[i]),
        !is_label(lines[j]),
        forall|k: int| i < k < j ==> is_label(#[trigger] lines[k]),
        forall|k: int|
            0 <= k <= i && is_label(lines[k]) ==> !m.contains_key(#[trigger] label_name(lines[k])),
        forall|k1: int, k2: int|
            0 <= k1 < k2 <= i && is_label(lines[k1]) && is_label(lines[k2]) ==> label_name(
                lines[k1],
            ) != label_name(lines[k2]),
    ensures
        label_pass(m, lines).0.contains_key(label_name(lines[i])),
        ({
            let a = label_pass(m, lines).0[label_name(lines[i])] as int;
            &&& a == strip_labels(lines.take(i)).len()
            &&& 0 <= a < strip_labels(lines).len()
            &&& strip_labels(lines)[a] == lines[j]
        }),
{
    reveal(Seq::filter);
    let before = lines.take(i);
    let upto = lines.take(i + 1);
    let name = label_name(lines[i]);
    assert forall|k: int| 0 <= k < before.len() && is_label(before[k]) implies !m.contains_key(
        #[trigger] label_name(before[k])) by {
        assert(before[k] == lines[k]);
    }
    assert forall|k1: int, k2: int|
        0 <= k1 < k2 < before.len() && is_label(before[k1]) && is_label(before[k2]) implies label_name(
        before[k1]) != label_name(before[k2]) by {
        assert(before[k1] == lines[k1] && before[k2] == lines[k2]);
    }
    lemma_label_pass_count(m, before);
    lemma_label_pass_domain(m, before);
    if label_pass(m, before).0.contains_key(name) {
        let q = choose|q: int|
            0 <= q < before.len() && is_label(before[q]) && label_name(before[q]) == name;
        assert(before[q] == lines[q]);
    }
    assert(upto.drop_last() =~= before);
    assert(upto.last() == lines[i]);
    let a = strip_labels(before).len();
    assert(label_pass(m, upto).0.contains_key(name));
    assert(label_pass(m, upto).0[name] == a as u16);
    lemma_label_pass_prefix(m, lines, i + 1);
    assert(label_pass(m, lines).0.contains_key(name));
    assert(label_pass(m, lines).0[name] == a as u16);
    lemma_strip_over_labels(lines, i, j);
    assert(lines.take(j + 1).drop_last() =~= lines.take(j));
    assert(lines.take(j + 1).last() == lines[j]);
    let rest = lines.skip(j + 1);
    assert(lines =~= lines.take(j + 1) + rest);
    Seq::filter_distributes_over_add(lines.take(j + 1), rest, |l: Seq<char>| !is_label(l));
}

/// The word of line `p` is the word of that line in the state that the lines
/// before it leave.
pub proof fn lemma_encode_prefix(m: Map<Seq<char>, u16>, next: u16, lines: Seq<Seq<char>>, p: int)
    requires
        0 <= p < lines.len(),
    ensures
        ({
            let (_, mp, np) = encode_lines(m, next, lines.take(p));
            encode_lines(m, next, lines).0[p] == encode_line(mp, np, lines[p]).0
        }),
    decreases lines.len(),
{
    let prev = lines.drop_last();
    if p == lines.len() - 1 {
        assert(lines.take(p) =~= prev);
        lemma_encoding_keeps_length(m, next, prev);
    } else {
        assert(prev.take(p) =~= lines.take(p));
        lemma_encode_prefix(m, next, prev, p);
        lemma_encoding_keeps_length(m, next, prev);
    }
}

proof fn lemma_encoding_keeps_length(m: Map<Seq<char>, u16>, next: u16, lines: Seq<Seq<char>>)
    ensures
        encode_lines(m, next, lines).0.len() == lines.len(),
    decreases lines.len(),
{
    if lines.len() > 0 {
        lemma_encoding_keeps_length(m, next, lines.drop_last());
    }
}

/// An address line naming the label of `lemma_label_address` (a name that
/// is no numeral), before or after the label's definition, encodes to the
/// number of instructions before the label: the address of the first
/// instruction after it.
pub proof fn lemma_label_reference(
    m: Map<Seq<char>, u16>,
    next: u16,
    lines: Seq<Seq<char>>,
    i: int,
    j: int,
    p: int,
)
    requires
        0 <= i < j < lines.len(),
        lines.len() <= 65536,
        is_label(lines[i]),
        !is_label(lines[j]),
        forall|k: int| i < k < j ==> is_label(#[trigger] lines[k]),
        forall|k: int|
            0 <= k <= i && is_label(lines[k]) ==> !m.contains_key(#[trigger] label_name(lines[k])),
        forall|k1: int, k2: int|
            0 <= k1 < k2 <= i && is_label(lines[k1]) && is_label(lines[k2]) ==> label_name(
                lines[k1],
            ) != label_name(lines[k2]),
        parse_u16(label_name(lines[i])) is None,
        next + strip_labels(lines).len() <= 65535,
        0 <= p < strip_labels(lines).len(),
        strip_labels(lines)[p] == seq!['@'] + label_name(lines[i]),
    ensures
        ({
            let program = strip_labels(lines);
            let w = encode_lines(label_pass(m, lines).0, next, program).0[p] as int;
            &&& w == strip_labels(lines.take(i)).len()
            &&& 0 <= w < program.len()
            &&& program[w] == lines[j]
        }),
{
    let program = strip_labels(lines);
    let table = label_pass(m, lines).0;
    let name = label_name(lines[i]);
    lemma_label_address(m, lines, i, j);
    lemma_encode_prefix(table, next, program, p);
    lemma_encoding_keeps_bindings(table, next, program.take(p));
    let (_, mp, np) = encode_lines(table, next, program.take(p));
    assert(mp.contains_key(name));
    lemma_symbol_address(mp, np, name);
}

/// In any program, an address line holding the numeral of `n` up to 32767
/// encodes to `n`, whatever the lines around it.
pub proof fn lemma_literal_in_program(m: Map<Seq<char>, u16>, next: u16, program: Seq<Seq<char>>, p: int, n: nat)
    requires
        n <= 32767,
        0 <= p < program.len(),
        program[p] == seq!['@'] + decimal(n),
    ensures
        encode_lines(m, next, program).0[p] == n,
{
    lemma_encode_prefix(m, next, program, p);
    let (_, mp, np) = encode_lines(m, next, program.take(p));
    lemma_literal_address(mp, np, n);
}

/// The characters of the predefined symbols' names.
proof fn lemma_predefined_names()
    ensures
        "SP"@.len() == 2 && "SP"@[0] == 'S' && "SP"@[1] == 'P',
        "LCL"@.len() == 3 && "LCL"@[0] == 'L' && "LCL"@[1] == 'C' && "LCL"@[2] == 'L',
        "ARG"@.len() == 3 && "ARG"@[0] == 'A' && "ARG"@[1] == 'R' && "ARG"@[2] == 'G',
        "THIS"@.len() == 4 && "THIS"@[0] == 'T' && "THIS"@[1] == 'H' && "THIS"@[2] == 'I' && "THIS"@[3] == 'S',
        "THAT"@.len() == 4 && "THAT"@[0] == 'T' && "THAT"@[1] == 'H' && "THAT"@[2] == 'A' && "THAT"@[3] == 'T',
        "R0"@.len() == 2 && "R0"@[0] == 'R' && "R0"@[1] == '0',
        "R1"@.len() == 2 && "R1"@[0] == 'R' && "R1"@[1] == '1',
        "R2"@.len() == 2 && "R2"@[0] == 'R' && "R2"@[1] == '2',
        "R3"@.len() == 2 && "R3"@[0] == 'R' && "R3"@[1] == '3',
        "R4"@.len() == 2 && "R4"@[0] == 'R' && "R4"@[1] == '4',
        "R5"@.len() == 2 && "R5"@[0] == 'R' && "R5"@[1] == '5',
        "R6"@.len() == 2 && "R6"@[0] == 'R' && "R6"@[1] == '6',
        "R7"@.len() == 2 && "R7"@[0] == 'R' && "R7"@[1] == '7',
        "R8"@.len() == 2 && "R8"@[0] == 'R' && "R8"@[1] == '8',
        "R9"@.len() == 2 && "R9"@[0] == 'R' && "R9"@[1] == '9',
        "R10"@.len() == 3 && "R10"@[0] == 'R' && "R10"@[1] == '1' && "R10"@[2] == '0',
        "R11"@.len() == 3 && "R11"@[0] == 'R' && "R11"@[1] == '1' && "R11"@[2] == '1',
        "R12"@.len() == 3 && "R12"@[0] == 'R' && "R12"@[1] == '1' && "R12"@[2] == '2',
        "R13"@.len() == 3 && "R13"@[0] == 'R' && "R13"@[1] == '1' && "R13"@[2] == '3',
        "R14"@.len() == 3 && "R14"@[0] == 'R' && "R14"@[1] == '1' && "R14"@[2] == '4',
        "R15"@.len() == 3 && "R15"@[0] == 'R' && "R15"@[1] == '1' && "R15"@[2] == '5',
        "SCREEN"@.len() == 6 && "SCREEN"@[0] == 'S' && "SCREEN"@[1] == 'C' && "SCREEN"@[2] == 'R' && "SCREEN"@[3] == 'E' && "SCREEN"@[4] == 'E' && "SCREEN"@[5] == 'N',
        "KBD"@.len() == 3 && "KBD"@[0] == 'K' && "KBD"@[1] == 'B' && "KBD"@[2] == 'D',
{
    reveal_strlit("SP");
    reveal_strlit("LCL");
    reveal_strlit("ARG");
    reveal_strlit("THIS");
    reveal_strlit("THAT");
    reveal_strlit("R0");
    reveal_strlit("R1");
    reveal_strlit("R2");
    reveal_strlit("R3");
    reveal_strlit("R4");
    reveal_strlit("R5");
    reveal_strlit("R6");
    reveal_strlit("R7");
    reveal_strlit("R8");
    reveal_strlit("R9");
    reveal_strlit("R10");
    reveal_strlit("R11");
    reveal_strlit("R12");
    reveal_strlit("R13");
    reveal_strlit("R14");
    reveal_strlit("R15");
    reveal_strlit("SCREEN");
    reveal_strlit("KBD");
}

/// The state of one assembly run: the symbol table and the address that the
/// next new variable receives.
pub struct ParseHandler {
    variable_counter: u16,
    names: Vec<Vec<char>>,
    addresses: Vec<u16>,
    table: Ghost<Map<Seq<char>, u16>>,
}

impl ParseHandler {
    /// A fresh run: the table holds the predefined symbols and variables
    /// start at address 16.
    pub fn new() -> (r: ParseHandler)
        ensures
            r.wf(),
            r.symbols() == predefined(),
            r.next_variable() == 16,
    {
        proof {
            lemma_predefined_names();
        }
        let mut h = ParseHandler {
            variable_counter: 16,
            names: Vec::new(),
            addresses: Vec::new(),
            table: Ghost(Map::empty()),
        };
        h.bind(chars_of("SP"), 0);
        h.bind(chars_of("LCL"), 1);
        h.bind(chars_of("ARG"), 2);
        h.bind(chars_of("THIS"), 3);
        h.bind(chars_of("THAT"), 4);
        h.bind(chars_of("R0"), 0);
        h.bind(chars_of("R1"), 1);
        h.bind(chars_of("R2"), 2);
        h.bind(chars_of("R3"), 3);
        h.bind(chars_of("R4"), 4);
        h.bind(chars_of("R5"), 5);
        h.bind(chars_of("R6"), 6);
        h.bind(chars_of("R7"), 7);
        h.bind(chars_of("R8"), 8);
        h.bind(chars_of("R9"), 9);
        h.bind(chars_of("R10"), 10);
        h.bind(chars_of("R11"), 11);
        h.bind(chars_of("R12"), 12);
        h.bind(chars_of("R13"), 13);
        h.bind(chars_of("R14"), 14);
        h.bind(chars_of("R15"), 15);
        h.bind(chars_of("SCREEN"), 16384);
        h.bind(chars_of("KBD"), 24576);
        assert(h.symbols() =~= predefined());
        h
    }

    /// The symbol table: each bound name with its address.
    pub closed spec fn symbols(&self) -> Map<Seq<char>, u16> {
        self.table@
    }

    /// The address that the next new variable receives.
    pub closed spec fn next_variable(&self) -> u16 {
        self.variable_counter
    }

    /// The stored names and addresses are exactly the symbol table.
    pub closed spec fn wf(&self) -> bool {
        &&& self.names@.len() == self.addresses@.len()
        &&& forall|i: int|
            0 <= i < self.names@.len() ==> #[trigger] self.table@.contains_key(self.names@[i]@)
                && self.table@[self.names@[i]@] == self.addresses@[i]
        &&& forall|k: Seq<char>|
            #[trigger] self.table@.contains_key(k) ==> exists|i: int|
                0 <= i < self.names@.len() && self.names@[i]@ == k
    }

    /// The address bound to `name`, if any.
    fn lookup(&self, name: &[char]) -> (r: Option<u16>)
        requires
            self.wf(),
        ensures
            r == (if self.symbols().contains_key(name@) {
                Some(self.symbols()[name@])
            } else {
                None
            }),
    {
        let mut i: usize = 0;
        while i < self.names.len()
            invariant
                self.wf(),
                i <= self.names@.len(),
                forall|j: int| 0 <= j < i ==> self.names@[j]@ != name@,
            decreases self.names@.len() - i,
        {
            if same_chars(self.names[i].as_slice(), name) {
                assert(self.table@.contains_key(self.names@[i as int]@));
                return Some(self.addresses[i]);
            }
            i = i + 1;
        }
        None
    }

    /// Binds the unbound `name` to `address`.
    fn bind(&mut self, name: Vec<char>, address: u16)
        requires
            old(self).wf(),
            !old(self).symbols().contains_key(name@),
        ensures
            final(self).wf(),
            final(self).symbols() == old(self).symbols().insert(name@, address),
            final(self).next_variable() == old(self).next_variable(),
    {
        let ghost key = name@;
        let ghost n = self.names@.len();
        self.names.push(name);
        self.addresses.push(address);
        self.table = Ghost(self.table@.insert(key, address));
        assert forall|k: Seq<char>| #[trigger] self.table@.contains_key(k) implies exists|i: int|
            0 <= i < self.names@.len() && self.names@[i]@ == k by {
            if k == key {
                assert(self.names@[n as int]@ == k);
            } else {
                assert(old(self).table@.contains_key(k));
                let i = choose|i: int| 0 <= i < old(self).names@.len() && old(self).names@[i]@ == k;
                assert(self.names@[i]@ == k);
            }
        }
        assert forall|i: int| 0 <= i < self.names@.len() implies #[trigger] self.table@.contains_key(
            self.names@[i]@) && self.table@[self.names@[i]@] == self.addresses@[i] by {
            if i < n {
                assert(old(self).table@.contains_key(old(self).names@[i]@));
            }
        }
    }

    /// Assembles a program text into its words, one per instruction line in
    /// order, binding its labels and then its variables in the table.
    pub fn parse_to_binary(&mut self, file_lines: String) -> (r: Vec<u16>)
        requires
            old(self).wf(),
            old(self).next_variable() + normalized(file_lines@).len() <= 65535,
        ensures
            final(self).wf(),
            (r@, final(self).symbols(), final(self).next_variable()) == assemble(
                old(self).symbols(),
                old(self).next_variable(),
                file_lines@,
            ),
    {
        let cleaned_file = file_cleaner(file_lines.as_str());
        self.find_all_labels(&cleaned_file);
        let program = remove_all_labels(&cleaned_file);
        proof {
            lines_view(cleaned_file@).lemma_filter_len(|l: Seq<char>| !is_label(l));
        }
        self.translate(&program)
    }

    /// Whether this run can assemble `file_lines`: its variable addresses
    /// must stay below 65535 even if every line introduced a new variable.
    pub fn can_assemble(&self, file_lines: &str) -> (r: bool)
        ensures
            r == (self.next_variable() + normalized(file_lines@).len() <= 65535),
    {
        let cleaned_file = file_cleaner(file_lines);
        cleaned_file.len() <= 65535 - self.variable_counter as usize
    }

    /// Runs the label pass over `lines`: see `label_pass`.
    fn find_all_labels(&mut self, lines: &Vec<Vec<char>>)
        requires
            old(self).wf(),
            lines@.len() <= 65536,
        ensures
            final(self).wf(),
            final(self).symbols() == label_pass(old(self).symbols(), lines_view(lines@)).0,
            final(self).next_variable() == old(self).next_variable(),
    {
        let ghost m0 = self.symbols();
        let ghost ls = lines_view(lines@);
        let mut shift: usize = 0;
        let mut i: usize = 0;
        while i < lines.len()
            invariant
                self.wf(),
                self.next_variable() == old(self).next_variable(),
                m0 == old(self).symbols(),
                ls == lines_view(lines@),
                lines@.len() <= 65536,
                i <= lines@.len(),
                (self.symbols(), shift as nat) == label_pass(m0, ls.take(i as int)),
            decreases lines@.len() - i,
        {
            proof {
                assert(ls.take(i + 1).drop_last() =~= ls.take(i as int));
                lemma_label_pass_shift(m0, ls.take(i as int));
            }
            let line = &lines[i];
            if line.len() > 0 && line[0] == '(' {
                let symbol = label_name_of(line.as_slice());
                if self.lookup(symbol.as_slice()).is_none() {
                    self.bind(symbol, (i - shift) as u16);
                    shift = shift + 1;
                }
            }
            i = i + 1;
        }
        assert(ls.take(lines@.len() as int) =~= ls);
    }

    /// The word of one instruction line: see `encode_line`.
    fn command_definer(&mut self, file_line: &[char]) -> (r: u16)
        requires
            old(self).wf(),
            old(self).next_variable() < 65535,
        ensures
            final(self).wf(),
            (r, final(self).symbols(), final(self).next_variable()) == encode_line(
                old(self).symbols(),
                old(self).next_variable(),
                file_line@,
            ),
    {
        if file_line.len() > 0 && file_line[0] == '@' {
            self.translate_a_command(file_line)
        } else {
            translate_c_command(file_line)
        }
    }

    /// The word of an address line: its literal, the address bound to its
    /// symbol, or the address of a new variable.
    fn translate_a_command(&mut self, file_line: &[char]) -> (r: u16)
        requires
            old(self).wf(),
            old(self).next_variable() < 65535,
            file_line@.len() > 0,
            file_line@[0] == '@',
        ensures
            final(self).wf(),
            (r, final(self).symbols(), final(self).next_variable()) == encode_line(
                old(self).symbols(),
                old(self).next_variable(),
                file_line@,
            ),
    {
        let reference = copy_range(file_line, 1, file_line.len());
        assert(reference@ =~= file_line@.drop_first());
        if let Some(value) = parse_number(reference.as_slice()) {
            return value;
        }
        match self.lookup(reference.as_slice()) {
            Some(address) => address,
            None => {
                let address = self.variable_counter;
                self.bind(reference, address);
                let ghost bound = *self;
                self.variable_counter = self.variable_counter + 1;
                assert(self.names@ == bound.names@ && self.addresses@ == bound.addresses@);
                assert(self.table@ == bound.table@);
                address
            },
        }
    }

    /// Encodes `lines` in order: see `encode_lines`.
    fn translate(&mut self, lines: &Vec<Vec<char>>) -> (r: Vec<u16>)
        requires
            old(self).wf(),
            old(self).next_variable() + lines@.len() <= 65535,
        ensures
            final(self).wf(),
            (r@, final(self).symbols(), final(self).next_variable()) == encode_lines(
                old(self).symbols(),
                old(self).next_variable(),
                lines_view(lines@),
            ),
    {
        let ghost m0 = self.symbols();
        let ghost n0 = self.next_variable();
        let ghost ls = lines_view(lines@);
        let mut out: Vec<u16> = Vec::new();
        let mut i: usize = 0;
        while i < lines.len()
            invariant
                self.wf(),
                m0 == old(self).symbols(),
                n0 == old(self).next_variable(),
                ls == lines_view(lines@),
                n0 + lines@.len() <= 65535,
                i <= lines@.len(),
                self.next_variable() <= n0 + i,
                (out@, self.symbols(), self.next_variable()) == encode_lines(m0, n0, ls.take(i as int)),
            decreases lines@.len() - i,
        {
            assert(ls.take(i + 1).drop_last() =~= ls.take(i as int));
            let word = self.command_definer(lines[i].as_slice());
            out.push(word);
            i = i + 1;
        }
        assert(ls.take(lines@.len() as int) =~= ls);
        out
    }
}

/// The name a label line defines: see `label_name`.
fn label_name_of(l: &[char]) -> (r: Vec<char>)
    ensures
        r@ == label_name(l@),
{
    let n = l.len();
    let mut a: usize = 0;
    assert(l@.subrange(0, n as int) =~= l@);
    while a < n && (l[a] == '(' || l[a] == ')')
        invariant
            n == l@.len(),
            a <= n,
            trim_front(l@.subrange(a as int, n as int)) == trim_front(l@),
        decreases n - a,
    {
        assert(l@.subrange(a as int, n as int).drop_first() =~= l@.subrange(a + 1, n as int));
        a = a + 1;
    }
    let mut b: usize = n;
    while b > a && (l[b - 1] == '(' || l[b - 1] == ')')
        invariant
            n == l@.len(),
            a <= b <= n,
            trim_back(l@.subrange(a as int, b as int)) == trim_back(l@.subrange(a as int, n as int)),
        decreases b - a,
    {
        assert(l@.subrange(a as int, b as int).drop_last() =~= l@.subrange(a as int, b - 1));
        b = b - 1;
    }
    copy_range(l, a, b)
}

/// The instruction lines of `lines`, in order: every label line is dropped.
fn remove_all_labels(lines: &Vec<Vec<char>>) -> (r: Vec<Vec<char>>)
    ensures
        lines_view(r@) == strip_labels(lines_view(lines@)),
{
    let ghost ls = lines_view(lines@);
    let mut out: Vec<Vec<char>> = Vec::new();
    let mut i: usize = 0;
    while i < lines.len()
        invariant
            ls == lines_view(lines@),
            i <= lines@.len(),
            lines_view(out@) == strip_labels(ls.take(i as int)),
        decreases lines@.len() - i,
    {
        proof {
            reveal(Seq::filter);
            assert(ls.take(i + 1).drop_last() =~= ls.take(i as int));
        }
        let line = &lines[i];
        if !(line.len() > 0 && line[0] == '(') {
            let ghost before = lines_view(out@);
            out.push(copy_range(line.as_slice(), 0, line.len()));
            assert(line@.subrange(0, line@.len() as int) =~= line@);
            assert(lines_view(out@) =~= before.push(line@));
        }
        i = i + 1;
    }
    assert(ls.take(lines@.len() as int) =~= ls);
    out
}

/// Whether `a` and `b` hold the same characters.
fn same_chars(a: &[char], b: &[char]) -> (r: bool)
    ensures
        r == (a@ == b@),
{
    if a.len() != b.len() {
        return false;
    }
    let mut i: usize = 0;
    while i < a.len()
        invariant
            a@.len() == b@.len(),
            i <= a@.len(),
            forall|j: int| 0 <= j < i ==> a@[j] == b@[j],
        decreases a@.len() - i,
    {
        if a[i] != b[i] {
            return false;
        }
        i = i + 1;
    }
    assert(a@ =~= b@);
    true
}

} // verus!
