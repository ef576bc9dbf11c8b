//! Encoding of single instructions into 16-bit words: the field tables of the
//! compute form, the splitting of a compute line into its fields, and the
//! decimal literals of the address form.
use vstd::prelude::*;

verus! {

/// Destination bits of a destination token.
pub open spec fn dest_code(t: Seq<char>) -> u16 {
    if t == "M"@ {
        0b001
    } else if t == "D"@ {
        0b010
    } else if t == "MD"@ {
        0b011
    } else if t == "A"@ {
        0b100
    } else if t == "AM"@ {
        0b101
    } else if t == "AD"@ {
        0b110
    } else if t == "AMD"@ {
        0b111
    } else {
        0b000
    }
}

/// Jump bits of a jump token.
pub open spec fn jump_code(t: Seq<char>) -> u16 {
    if t == "JGT"@ {
        0b001
    } else if t == "JEQ"@ {
        0b010
    } else if t == "JGE"@ {
        0b011
    } else if t == "JLT"@ {
        0b100
    } else if t == "JNE"@ {
        0b101
    } else if t == "JLE"@ {
        0b110
    } else if t == "JMP"@ {
        0b111
    } else {
        0b000
    }
}

/// Computation bits of a computation token; `None` for a token outside the
/// table. A token that reads memory (`M`) has the code of its `A` form.
pub open spec fn comp_code(t: Seq<char>) -> Option<u16> {
    if t == "0"@ {
        Some(0b101010)
    } else if t == "1"@ {
        Some(0b111111)
    } else if t == "-1"@ {
        Some(0b111010)
    } else if t == "D"@ {
        Some(0b001100)
    } else if t == "A"@ || t == "M"@ {
        Some(0b110000)
    } else if t == "!D"@ {
        Some(0b001101)
    } else if t == "!A"@ || t == "!M"@ {
        Some(0b110001)
    } else if t == "-D"@ {
        Some(0b001111)
    } else if t == "-A"@ || t == "-M"@ {
        Some(0b110011)
    } else if t == "D+1"@ {
        Some(0b011111)
    } else if t == "A+1"@ || t == "M+1"@ {
        Some(0b110111)
    } else if t == "D-1"@ {
        Some(0b001110)
    } else if t == "A-1"@ || t == "M-1"@ {
        Some(0b110010)
    } else if t == "D+A"@ || t == "D+M"@ {
        Some(0b000010)
    } else if t == "D-A"@ || t == "D-M"@ {
        Some(0b010011)
    } else if t == "A-D"@ || t == "M-D"@ {
        Some(0b000111)
    } else if t == "D&A"@ || t == "D&M"@ {
        Some(0b000000)
    } else if t == "D|A"@ || t == "D|M"@ {
        Some(0b010101)
    } else {
        None
    }
}

/// Whether `t` holds exactly the characters of `w`.
pub fn is_token(t: &[char], w: &str) -> (r: bool)
    ensures
        r == (t@ == w@),
{
    let n = w.unicode_len();
    if t.len() != n {
        return false;
    }
    let mut i: usize = 0;
    while i < n
        invariant
            n == w@.len(),
            t@.len() == n,
            i <= n,
            forall|j: int| 0 <= j < i ==> t@[j] == w@[j],
        decreases n - i,
    {
        if t[i] != w.get_char(i) {
            return false;
        }
        i = i + 1;
    }
    assert(t@ =~= w@);
    true
}

/// Destination bits of `dest`; zero for an unknown token.
pub fn dest_in_bits(dest: &[char]) -> (r: u16)
    ensures
        r == dest_code(dest@),
{
    if is_token(dest, "M") {
        0b001
    } else if is_token(dest, "D") {
        0b010
    } else if is_token(dest, "MD") {
        0b011
    } else if is_token(dest, "A") {
        0b100
    } else if is_token(dest, "AM") {
        0b101
    } else if is_token(dest, "AD") {
        0b110
    } else if is_token(dest, "AMD") {
        0b111
    } else {
        0b000
    }
}

/// Jump bits of `jump`; zero for an unknown token.
pub fn jump_in_bits(jump: &[char]) -> (r: u16)
    ensures
        r == jump_code(jump@),
{
    if is_token(jump, "JGT") {
        0b001
    } else if is_token(jump, "JEQ") {
        0b010
    } else if is_token(jump, "JGE") {
        0b011
    } else if is_token(jump, "JLT") {
        0b100
    } else if is_token(jump, "JNE") {
        0b101
    } else if is_token(jump, "JLE") {
        0b110
    } else if is_token(jump, "JMP") {
        0b111
    } else {
        0b000
    }
}

/// Computation bits of `comp`, or `None` for a token outside the table.
pub fn comp_in_bits(comp: &[char]) -> (r: Option<u16>)
    ensures
        r == comp_code(comp@),
{
    if is_token(comp, "0") {
        Some(0b101010)
    } else if is_token(comp, "1") {
        Some(0b111111)
    } else if is_token(comp, "-1") {
        Some(0b111010)
    } else if is_token(comp, "D") {
        Some(0b001100)
    } else if is_token(comp, "A") || is_token(comp, "M") {
        Some(0b110000)
    } else if is_token(comp, "!D") {
        Some(0b001101)
    } else if is_token(comp, "!A") || is_token(comp, "!M") {
        Some(0b110001)
    } else if is_token(comp, "-D") {
        Some(0b001111)
    } else if is_token(comp, "-A") || is_token(comp, "-M") {
        Some(0b110011)
    } else if is_token(comp, "D+1") {
        Some(0b011111)
    } else if is_token(comp, "A+1") || is_token(comp, "M+1") {
        Some(0b110111)
    } else if is_token(comp, "D-1") {
        Some(0b001110)
    } else if is_token(comp, "A-1") || is_token(comp, "M-1") {
        Some(0b110010)
    } else if is_token(comp, "D+A") || is_token(comp, "D+M") {
        Some(0b000010)
    } else if is_token(comp, "D-A") || is_token(comp, "D-M") {
        Some(0b010011)
    } else if is_token(comp, "A-D") || is_token(comp, "M-D") {
        Some(0b000111)
    } else if is_token(comp, "D&A") || is_token(comp, "D&M") {
        Some(0b000000)
    } else if is_token(comp, "D|A") || is_token(comp, "D|M") {
        Some(0b010101)
    } else {
        None
    }
}

/// Whether `c` separates the fields of a compute line.
pub open spec fn is_delim(c: char) -> bool {
    c == '=' || c == ';'
}

/// Index of the first field separator at or after `j`, or the line's length.
pub open spec fn delim_from(s: Seq<char>, j: int) -> int
    decreases s.len() - j,
{
    if j < 0 || j >= s.len() {
        s.len() as int
    } else if is_delim(s[j]) {
        j
    } else {
        delim_from(s, j + 1)
    }
}

/// Start of field `k` of `s`, or `s.len() + 1` when `s` has fewer fields.
pub open spec fn field_start(s: Seq<char>, k: nat) -> int
    decreases k,
{
    if k == 0 {
        0
    } else {
        let p = field_start(s, (k - 1) as nat);
        if p > s.len() {
            p
        } else if delim_from(s, p) < s.len() {
            delim_from(s, p) + 1
        } else {
            s.len() as int + 1
        }
    }
}

/// Field `k` of `s` split at `=` and `;`; empty when `s` has fewer fields.
pub open spec fn field(s: Seq<char>, k: nat) -> Seq<char> {
    let p = field_start(s, k);
    if p > s.len() {
        seq![]
    } else {
        s.subrange(p, delim_from(s, p))
    }
}

/// The destination, computation and jump tokens of a compute line. A line
/// without `=` has no destination, and its first two fields are the
/// computation and the jump.
pub open spec fn c_fields(l: Seq<char>) -> (Seq<char>, Seq<char>, Seq<char>) {
    if l.contains('=') {
        (field(l, 0), field(l, 1), field(l, 2))
    } else {
        (seq![], field(l, 0), field(l, 1))
    }
}

/// The word of a compute line: `111`, the memory bit, the six computation
/// bits, three destination bits and three jump bits. A computation outside
/// the table contributes no bits, so the word is then only ten bits long.
pub open spec fn c_word(l: Seq<char>) -> u16 {
    let (d, c, j) = c_fields(l);
    let dest: int = if l.contains('=') { dest_code(d) as int } else { 0 };
    let a: int = if c.contains('M') { 1 } else { 0 };
    match comp_code(c) {
        Some(cc) => (0b111 * 8192 + a * 4096 + cc * 64 + dest * 8 + jump_code(j)) as u16,
        None => (0b111 * 128 + a * 64 + dest * 8 + jump_code(j)) as u16,
    }
}

pub proof fn lemma_delim_from(s: Seq<char>, j: int)
    requires
        0 <= j <= s.len(),
    ensures
        j <= delim_from(s, j) <= s.len(),
        delim_from(s, j) < s.len() ==> is_delim(s[delim_from(s, j)]),
        forall|i: int| j <= i < delim_from(s, j) ==> !is_delim(s[i]),
    decreases s.len() - j,
{
    if j < s.len() && !is_delim(s[j]) {
        lemma_delim_from(s, j + 1);
    }
}

pub proof fn lemma_field_missing(s: Seq<char>, i: nat, k: nat)
    requires
        i <= k,
        field_start(s, i) > s.len(),
    ensures
        field_start(s, k) > s.len(),
    decreases k - i,
{
    if i < k {
        lemma_field_missing(s, i, (k - 1) as nat);
    }
}

/// Index of the first field separator at or after `from`.
fn next_delim(s: &[char], from: usize) -> (r: usize)
    requires
        from <= s@.len(),
    ensures
        r == delim_from(s@, from as int),
{
    let mut j: usize = from;
    while j < s.len() && !(s[j] == '=' || s[j] == ';')
        invariant
            from <= j <= s@.len(),
            delim_from(s@, j as int) == delim_from(s@, from as int),
        decreases s@.len() - j,
    {
        j = j + 1;
    }
    j
}

/// A copy of `s[from..to]`.
pub(crate) fn copy_range(s: &[char], from: usize, to: usize) -> (r: Vec<char>)
    requires
        from <= to <= s@.len(),
    ensures
        r@ == s@.subrange(from as int, to as int),
{
    let mut out: Vec<char> = Vec::new();
    let mut i: usize = from;
    while i < to
        invariant
            from <= i <= to <= s@.len(),
            out@ == s@.subrange(from as int, i as int),
        decreases to - i,
    {
        out.push(s[i]);
        i = i + 1;
        assert(out@ =~= s@.subrange(from as int, i as int));
    }
    out
}

/// Field `k` of `s`, split at `=` and `;`.
fn field_of(s: &[char], k: usize) -> (r: Vec<char>)
    ensures
        r@ == field(s@, k as nat),
{
    let mut p: usize = 0;
    let mut i: usize = 0;
    while i < k
        invariant
            i <= k,
            p <= s@.len(),
            field_start(s@, i as nat) == p,
        decreases k - i,
    {
        let d = next_delim(s, p);
        proof {
            lemma_delim_from(s@, p as int);
        }
        if d == s.len() {
            proof {
                assert(field_start(s@, (i + 1) as nat) > s@.len());
                lemma_field_missing(s@, (i + 1) as nat, k as nat);
            }
            return Vec::new();
        }
        p = d + 1;
        i = i + 1;
    }
    let d = next_delim(s, p);
    proof {
        lemma_delim_from(s@, p as int);
    }
    copy_range(s, p, d)
}

/// Whether `s` holds the character `c`.
fn contains_char(s: &[char], c: char) -> (r: bool)
    ensures
        r == s@.contains(c),
{
    let mut i: usize = 0;
    while i < s.len()
        invariant
            i <= s@.len(),
            forall|j: int| 0 <= j < i ==> s@[j] != c,
        decreases s@.len() - i,
    {
        if s[i] == c {
            assert(s@[i as int] == c);
            return true;
        }
        i = i + 1;
    }
    false
}

/// The word of a compute line: see `c_word`.
pub fn translate_c_command(file_line: &[char]) -> (r: u16)
    ensures
        r == c_word(file_line@),
{
    let has_dest = contains_char(file_line, '=');
    let (dest_bits, comp, jump) = if has_dest {
        let d = field_of(file_line, 0);
        (dest_in_bits(d.as_slice()), field_of(file_line, 1), field_of(file_line, 2))
    } else {
        (0u16, field_of(file_line, 0), field_of(file_line, 1))
    };
    let a_bit: u16 = if contains_char(comp.as_slice(), 'M') { 1 } else { 0 };
    let jump_bits = jump_in_bits(jump.as_slice());
    match comp_in_bits(comp.as_slice()) {
        Some(comp_bits) => 0b111 * 8192 + a_bit * 4096 + comp_bits * 64 + dest_bits * 8 + jump_bits,
        None => 0b111 * 128 + a_bit * 64 + dest_bits * 8 + jump_bits,
    }
}

/// Whether `c` is a decimal digit.
pub open spec fn is_digit(c: char) -> bool {
    '0' <= c && c <= '9'
}

/// Value of the decimal digits `s`.
pub open spec fn digits_value(s: Seq<char>) -> nat
    decreases s.len(),
{
    if s.len() == 0 {
        0
    } else {
        digits_value(s.drop_last()) * 10 + ((s.last() as int) - ('0' as int)) as nat
    }
}

/// Whether every character of `d` is a decimal digit.
pub open spec fn all_digits(d: Seq<char>) -> bool {
    forall|i: int| 0 <= i < d.len() ==> is_digit(d[i])
}

/// `s` without one leading `+`.
pub open spec fn unsigned_part(s: Seq<char>) -> Seq<char> {
    if s.len() > 0 && s[0] == '+' {
        s.drop_first()
    } else {
        s
    }
}

/// The unsigned 16-bit number that `s` writes in decimal, optionally after
/// one `+`; `None` when `s` is no such number or its value exceeds 65535.
pub open spec fn parse_u16(s: Seq<char>) -> Option<u16> {
    let d = unsigned_part(s);
    if d.len() > 0 && all_digits(d) && digits_value(d) <= 65535 {
        Some(digits_value(d) as u16)
    } else {
        None
    }
}

pub proof fn lemma_digits_prefix(d: Seq<char>, k: int)
    requires
        0 <= k <= d.len(),
        all_digits(d),
    ensures
        digits_value(d.take(k)) <= digits_value(d),
    decreases d.len(),
{
    if k < d.len() {
        assert(d.drop_last().take(k) =~= d.take(k));
        lemma_digits_prefix(d.drop_last(), k);
    } else {
        assert(d.take(k) =~= d);
    }
}

/// The number written by `s`: see `parse_u16`.
pub fn parse_number(s: &[char]) -> (r: Option<u16>)
    ensures
        r == parse_u16(s@),
{
    let n = s.len();
    let start: usize = if n > 0 && s[0] == '+' { 1 } else { 0 };
    let ghost d = s@.subrange(start as int, n as int);
    assert(d =~= unsigned_part(s@));
    if start == n {
        return None;
    }
    let mut value: u32 = 0;
    let mut i: usize = start;
    while i < n
        invariant
            n == s@.len(),
            start <= i <= n,
            d == s@.subrange(start as int, n as int),
            d == unsigned_part(s@),
            value == digits_value(d.take(i - start)),
            value <= 65535,
            forall|j: int| 0 <= j < i - start ==> is_digit(d[j]),
        decreases n - i,
    {
        let c = s[i];
        assert(d[i - start] == c);
        if !('0' <= c && c <= '9') {
            assert(!is_digit(d[i - start]));
            return None;
        }
        assert(d.take(i + 1 - start).drop_last() =~= d.take(i - start));
        assert(d.take(i + 1 - start).last() == c);
        let next: u32 = value * 10 + (c as u32 - '0' as u32);
        if next > 65535 {
            proof {
                if all_digits(d) {
                    lemma_digits_prefix(d, i + 1 - start);
                }
            }
            return None;
        }
        value = next;
        i = i + 1;
    }
    assert(d.take(n - start) =~= d);
    Some(value as u16)
}

/// The destination bits of a compute word.
pub open spec fn word_dest(w: u16) -> u16 {
    ((w / 8) % 8) as u16
}

/// The jump bits of a compute word.
pub open spec fn word_jump(w: u16) -> u16 {
    (w % 8) as u16
}

/// The computation bits of a full compute word.
pub open spec fn word_comp(w: u16) -> u16 {
    ((w / 64) % 64) as u16
}

/// The memory bit of a full compute word.
pub open spec fn word_memory_bit(w: u16) -> u16 {
    ((w / 4096) % 2) as u16
}

pub proof fn lemma_table_bounds(t: Seq<char>)
    ensures
        dest_code(t) < 8,
        jump_code(t) < 8,
        comp_code(t) matches Some(c) ==> c < 64,
{
}

/// Reading the bit groups back out of the word of any compute line gives the
/// destination and jump bits that were looked up; when the computation is in
/// the table, also its six bits, the memory bit and the `111` prefix.
pub proof fn lemma_compute_word_round_trip(l: Seq<char>)
    ensures
        ({
            let (d, c, j) = c_fields(l);
            let w = c_word(l);
            &&& word_jump(w) == jump_code(j)
            &&& word_dest(w) == (if l.contains('=') { dest_code(d) } else { 0 })
            &&& comp_code(c) matches Some(cc) ==> {
                &&& word_comp(w) == cc
                &&& word_memory_bit(w) == (if c.contains('M') { 1u16 } else { 0u16 })
                &&& w / 8192 == 0b111
            }
        }),
{
    let (d, c, j) = c_fields(l);
    lemma_table_bounds(d);
    lemma_table_bounds(c);
    lemma_table_bounds(j);
    let dest: int = if l.contains('=') { dest_code(d) as int } else { 0 };
    let a: int = if c.contains('M') { 1 } else { 0 };
    let jb = jump_code(j) as int;
    match comp_code(c) {
        Some(cc) => {
            let cc = cc as int;
            let w = 0b111 * 8192 + a * 4096 + cc * 64 + dest * 8 + jb;
            assert(w % 8 == jb && (w / 8) % 8 == dest && (w / 64) % 64 == cc && (w / 4096) % 2
                == a && w / 8192 == 7) by (nonlinear_arith)
                requires
                    w == 0b111 * 8192 + a * 4096 + cc * 64 + dest * 8 + jb,
                    0 <= a < 2,
                    0 <= cc < 64,
                    0 <= dest < 8,
                    0 <= jb < 8,
            ;
        },
        None => {
            let w = 0b111 * 128 + a * 64 + dest * 8 + jb;
            assert(w % 8 == jb && (w / 8) % 8 == dest) by (nonlinear_arith)
                requires
                    w == 0b111 * 128 + a * 64 + dest * 8 + jb,
                    0 <= a < 2,
                    0 <= dest < 8,
                    0 <= jb < 8,
            ;
        },
    }
}

/// The decimal digit for `d`.
pub open spec fn digit_char(d: nat) -> char {
    seq!['0', '1', '2', '3', '4', '5', '6', '7', '8', '9'][d as int]
}

/// The decimal numeral of `n`, without leading zeros.
pub open spec fn decimal(n: nat) -> Seq<char>
    decreases n,
{
    if n < 10 {
        seq![digit_char(n)]
    } else {
        decimal(n / 10).push(digit_char(n % 10))
    }
}

/// Every number up to 65535 reads back from its decimal numeral.
pub proof fn lemma_parse_decimal(n: nat)
    requires
        n <= 65535,
    ensures
        parse_u16(decimal(n)) == Some(n as u16),
{
    lemma_decimal_digits(n);
    assert(!is_digit('+'));
}

proof fn lemma_decimal_digits(n: nat)
    ensures
        decimal(n).len() > 0,
        all_digits(decimal(n)),
        digits_value(decimal(n)) == n,
    decreases n,
{
    let ds = seq!['0', '1', '2', '3', '4', '5', '6', '7', '8', '9'];
    assert(forall|d: int| 0 <= d < 10 ==> is_digit(#[trigger] ds[d]) && (ds[d] as int) - ('0' as int) == d);
    if n < 10 {
        assert(decimal(n).drop_last() =~= Seq::<char>::empty());
        assert(decimal(n).last() == ds[n as int]);
        assert(digits_value(decimal(n)) == digits_value(Seq::<char>::empty()) * 10 + n);
    } else {
        lemma_decimal_digits(n / 10);
        assert(decimal(n).drop_last() =~= decimal(n / 10));
        assert(decimal(n).last() == ds[(n % 10) as int]);
        assert(digits_value(decimal(n)) == (n / 10) * 10 + n % 10);
    }
}

/// Whether `t` holds no field separator.
pub open spec fn no_delim(t: Seq<char>) -> bool {
    forall|i: int| 0 <= i < t.len() ==> !is_delim(#[trigger] t[i])
}

proof fn lemma_delim_skip(s: Seq<char>, j: int, e: int)
    requires
        0 <= j <= e <= s.len(),
        forall|i: int| j <= i < e ==> !is_delim(#[trigger] s[i]),
    ensures
        delim_from(s, j) == delim_from(s, e),
    decreases e - j,
{
    if j < e {
        lemma_delim_skip(s, j + 1, e);
    }
}

/// The fields of `d=c`, with `d` and `c` free of separators: destination
/// `d`, computation `c`, no jump.
pub proof fn lemma_assignment_fields(d: Seq<char>, c: Seq<char>)
    requires
        no_delim(d),
        no_delim(c),
    ensures
        (d + seq!['='] + c).contains('='),
        c_fields(d + seq!['='] + c) == (d, c, Seq::<char>::empty()),
{
    let l = d + seq!['='] + c;
    let n = d.len() as int;
    assert(l[n] == '=');
    assert forall|i: int| 0 <= i < n implies !is_delim(#[trigger] l[i]) by {
        assert(l[i] == d[i]);
    }
    assert forall|i: int| n + 1 <= i < l.len() implies !is_delim(#[trigger] l[i]) by {
        assert(l[i] == c[i - n - 1]);
    }
    lemma_delim_skip(l, 0, n);
    lemma_delim_skip(l, n + 1, l.len() as int);
    assert(delim_from(l, n) == n);
    assert(delim_from(l, l.len() as int) == l.len());
    assert(field_start(l, 0) == 0);
    assert(delim_from(l, 0) == n);
    assert(field_start(l, 1) == n + 1);
    assert(field_start(l, 2) == l.len() + 1);
    assert(field(l, 0) =~= d);
    assert(field(l, 1) =~= c);
}

/// The fields of `c;j`, with `c` and `j` free of separators: no destination,
/// computation `c`, jump `j`.
pub proof fn lemma_jump_fields(c: Seq<char>, j: Seq<char>)
    requires
        no_delim(c),
        no_delim(j),
    ensures
        !(c + seq![';'] + j).contains('='),
        c_fields(c + seq![';'] + j) == (Seq::<char>::empty(), c, j),
{
    let l = c + seq![';'] + j;
    let n = c.len() as int;
    assert(l[n] == ';');
    assert forall|i: int| 0 <= i < n implies !is_delim(#[trigger] l[i]) by {
        assert(l[i] == c[i]);
    }
    assert forall|i: int| n + 1 <= i < l.len() implies !is_delim(#[trigger] l[i]) by {
        assert(l[i] == j[i - n - 1]);
    }
    if l.contains('=') {
        let i = choose|i: int| 0 <= i < l.len() && l[i] == '=';
        assert(!is_delim(l[i]));
    }
    lemma_delim_skip(l, 0, n);
    lemma_delim_skip(l, n + 1, l.len() as int);
    assert(delim_from(l, n) == n);
    assert(delim_from(l, l.len() as int) == l.len());
    assert(field_start(l, 0) == 0);
    assert(delim_from(l, 0) == n);
    assert(field_start(l, 1) == n + 1);
    assert(field(l, 0) =~= c);
    assert(field(l, 1) =~= j);
}

/// The word of `d=c` gives back the destination bits of `d` and no jump.
pub proof fn lemma_assignment_round_trip(d: Seq<char>, c: Seq<char>)
    requires
        no_delim(d),
        no_delim(c),
    ensures
        word_dest(c_word(d + seq!['='] + c)) == dest_code(d),
        word_jump(c_word(d + seq!['='] + c)) == 0,
{
    lemma_assignment_fields(d, c);
    lemma_compute_word_round_trip(d + seq!['='] + c);
    reveal_strlit("JGT");
    reveal_strlit("JEQ");
    reveal_strlit("JGE");
    reveal_strlit("JLT");
    reveal_strlit("JNE");
    reveal_strlit("JLE");
    reveal_strlit("JMP");
}

/// The word of `c;j` gives back the jump bits of `j` and no destination.
pub proof fn lemma_jump_round_trip(c: Seq<char>, j: Seq<char>)
    requires
        no_delim(c),
        no_delim(j),
    ensures
        word_jump(c_word(c + seq![';'] + j)) == jump_code(j),
        word_dest(c_word(c + seq![';'] + j)) == 0,
{
    lemma_jump_fields(c, j);
    lemma_compute_word_round_trip(c + seq![';'] + j);
}

} // verus!
