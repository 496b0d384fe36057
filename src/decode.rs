use vstd::prelude::*;
use vstd::std_specs::iter::IteratorSpec;
use crate::codec::{
    batch_text, escape_char, escaped, hex_char, items_text, line_open, pid_open, record_text, rest_text,
    lemma_batch_text_injective, lemma_escape_char_prefix, lemma_escaped_prefix, lemma_escaped_push,
    lemma_int_text_prefix, lemma_items_push, lemma_record_prefix, lemma_record_starts_with_brace,
};
use crate::syscall::{SyscallInfo, SnapshotModel, batch_model};
use crate::text::push_char;
use crate::text::{int_text, nat_text, is_digit, digits_value, digit_value, all_digits, lemma_nat_text, lemma_int_text_shape};

verus! {

broadcast use vstd::string::group_string_axioms;

/// The characters of a text, in order.
pub(crate) fn chars_of(s: &str) -> (r: Vec<char>)
    ensures
        r@ == s@,
{
    let mut it = s.chars();
    let mut v: Vec<char> = Vec::new();
    loop
        invariant
            v@ + it.remaining() == s@,
            it.decrease() is Some,
        ensures
            v@ == s@,
        decreases it.decrease()->0,
    {
        match it.next() {
            Some(c) => {
                v.push(c);
            },
            None => {
                assert(v@ =~= s@);
                break ;
            },
        }
    }
    v
}

proof fn lemma_digits_value_nonneg(d: Seq<char>)
    requires
        all_digits(d),
    ensures
        digits_value(d) >= 0,
    decreases d.len(),
{
    if d.len() > 0 {
        assert(all_digits(d.drop_last()));
        lemma_digits_value_nonneg(d.drop_last());
    }
}

proof fn lemma_digits_value_prefix(d: Seq<char>, k: int)
    requires
        all_digits(d),
        0 <= k <= d.len(),
    ensures
        digits_value(d.subrange(0, k)) <= digits_value(d),
    decreases d.len() - k,
{
    if k < d.len() {
        assert(all_digits(d.drop_last()));
        lemma_digits_value_nonneg(d.drop_last());
        lemma_digits_value_prefix(d.drop_last(), k);
        assert(d.drop_last().subrange(0, k) =~= d.subrange(0, k));
    } else {
        assert(d.subrange(0, k) =~= d);
    }
}

proof fn lemma_nat_text_lead(m: nat)
    ensures
        nat_text(m)[0] == '0' ==> m == 0,
    decreases m,
{
    if m >= 10 {
        lemma_nat_text_lead(m / 10);
        lemma_nat_text(m / 10);
        assert(nat_text(m)[0] == nat_text(m / 10)[0]);
    }
}

/// Digits without a leading zero are the decimal text of their value.
proof fn lemma_canonical_digits(d: Seq<char>)
    requires
        d.len() > 0,
        all_digits(d),
        d[0] == '0' ==> d.len() == 1,
    ensures
        nat_text(digits_value(d) as nat) == d,
        d.len() > 1 ==> digits_value(d) >= 10,
        d[0] != '0' ==> digits_value(d) >= 1,
    decreases d.len(),
{
    let p = d.drop_last();
    assert(is_digit(d.last()));
    if d.len() == 1 {
        assert(digits_value(p) == 0);
        assert(nat_text(digits_value(d) as nat) =~= d);
    } else {
        assert(all_digits(p));
        assert(p[0] == d[0]);
        lemma_canonical_digits(p);
        let v = digits_value(d);
        assert(v == 10 * digits_value(p) + digit_value(d.last()));
        assert(v / 10 == digits_value(p));
        assert(v % 10 == digit_value(d.last()));
        assert(nat_text(v as nat) =~= d);
    }
}

fn is_digit_char(c: char) -> (r: bool)
    ensures
        r == is_digit(c),
{
    '0' <= c && c <= '9'
}

/// Reads at `pos` the decimal text of an `i32` that a non-digit follows.
fn parse_int(s: &Vec<char>, pos: usize) -> (r: Option<(i32, usize)>)
    requires
        pos <= s@.len(),
    ensures
        r matches Some((v, e)) ==> pos < e < s@.len() && s@.subrange(pos as int, e as int)
            == int_text(v as int) && !is_digit(s@[e as int]),
        (exists|n: i32, x: Seq<char>|
            s@.subrange(pos as int, s@.len() as int) == int_text(n as int) + x && x.len() > 0
                && !is_digit(x[0])) ==> r is Some,
{
    let ghost has = exists|n: i32, x: Seq<char>|
        s@.subrange(pos as int, s@.len() as int) == int_text(n as int) + x && x.len() > 0
            && !is_digit(x[0]);
    let ghost n: i32 = 0;
    let ghost x: Seq<char> = Seq::empty();
    proof {
        if has {
            let (n0, x0) = choose|n: i32, x: Seq<char>|
                s@.subrange(pos as int, s@.len() as int) == int_text(n as int) + x && x.len() > 0
                    && !is_digit(x[0]);
            n = n0;
            x = x0;
        }
    }
    let ghost t = int_text(n as int);
    let ghost end = pos + t.len();
    let ghost mag: nat = if n < 0 { (-n) as nat } else { n as nat };
    let ghost body = nat_text(mag);
    proof {
        if has {
            lemma_int_text_shape(n as int);
            lemma_nat_text(mag);
            lemma_nat_text_lead(mag);
            let rest = s@.subrange(pos as int, s@.len() as int);
            assert(rest.len() == t.len() + x.len());
            assert forall|k: int| 0 <= k < t.len() implies s@[pos + k] == t[k] by {
                assert(rest[k] == s@[pos + k]);
                assert(rest[k] == (t + x)[k]);
            }
            assert(rest[t.len() as int] == (t + x)[t.len() as int]);
            assert(rest[t.len() as int] == s@[end]);
            assert(s@[end] == x[0]);
            assert(s@[pos as int] == t[0]);
            if n < 0 {
                assert(t =~= seq!['-'] + body);
            } else {
                assert(t == body);
            }
        }
    }
    let len = s.len();
    let mut i: usize = pos;
    let neg = i < len && s[i] == '-';
    if neg {
        i = i + 1;
    }
    let start = i;
    proof {
        if has {
            assert(neg == (n < 0));
            assert(end - start == body.len());
            assert forall|k: int| 0 <= k < body.len() implies s@[start + k] == body[k] by {
                if n < 0 {
                    assert(t[k + 1] == body[k]);
                }
            }
        }
    }
    let mut acc: u64 = 0;
    while i < len && is_digit_char(s[i])
        invariant
            pos <= start <= i <= len,
            len == s@.len(),
            all_digits(s@.subrange(start as int, i as int)),
            acc == digits_value(s@.subrange(start as int, i as int)),
            acc <= 21474836489,
            has ==> i <= end,
            has ==> end < len,
            has ==> end - start == body.len(),
            has ==> forall|k: int| 0 <= k < body.len() ==> s@[start + k] == body[k],
            has ==> all_digits(body) && digits_value(body) == mag && mag <= 2147483648,
            has ==> !is_digit(s@[end]),
            has == (exists|n: i32, x: Seq<char>|
                s@.subrange(pos as int, s@.len() as int) == int_text(n as int) + x && x.len() > 0
                    && !is_digit(x[0])),
        decreases len - i,
    {
        let ghost pre = s@.subrange(start as int, i as int);
        proof {
            if has {
                assert(i < end);
                assert(pre =~= body.subrange(0, i - start));
                lemma_digits_value_prefix(body, i - start);
                assert(acc <= mag);
            }
        }
        if acc > 2147483648 {
            assert(!has);
            return None;
        }
        let c = s[i];
        acc = acc * 10 + (c as u32 - 48) as u64;
        i = i + 1;
        proof {
            let now = s@.subrange(start as int, i as int);
            assert(now.drop_last() =~= pre);
            assert(now.last() == c);
            assert forall|k: int| 0 <= k < now.len() implies is_digit(#[trigger] now[k]) by {
                if k < now.len() - 1 {
                    assert(now[k] == pre[k]);
                }
            }
        }
    }
    let ghost run = s@.subrange(start as int, i as int);
    proof {
        if has {
            if i < end {
                assert(s@[i as int] == body[i - start]);
            }
            assert(i == end);
            assert(run =~= body);
        }
    }
    if i == start || i >= len {
        return None;
    }
    if s[start] == '0' && i - start > 1 {
        proof {
            if has {
                assert(run[0] == '0');
                assert(mag == 0);
            }
        }
        return None;
    }
    proof {
        lemma_canonical_digits(run);
        lemma_digits_value_nonneg(run);
    }
    if neg {
        if acc == 0 || acc > 2147483648 {
            return None;
        }
        let v: i32 = (0 - acc as i64) as i32;
        assert(s@.subrange(pos as int, i as int) =~= seq!['-'] + run);
        proof {
            if run[0] == '0' {
                assert(run.len() == 1);
                assert(run.drop_last() =~= Seq::<char>::empty());
                assert(digits_value(run.drop_last()) == 0);
                assert(acc == 0);
            }
        }
        Some((v, i))
    } else {
        if acc > 2147483647 {
            return None;
        }
        let v: i32 = acc as i32;
        assert(s@.subrange(pos as int, i as int) =~= run);
        proof {
            if run[0] == '0' {
                assert(run.len() == 1);
            }
        }
        Some((v, i))
    }
}

fn hex_value(c: char) -> (r: Option<u32>)
    ensures
        r matches Some(d) ==> d < 16 && hex_char(d as int) == c,
        (exists|d: int| 0 <= d < 16 && hex_char(d) == c) ==> r is Some,
{
    if '0' <= c && c <= '9' {
        Some(c as u32 - 48)
    } else if 'a' <= c && c <= 'f' {
        Some(c as u32 - 87)
    } else {
        proof {
            assert forall|d: int| 0 <= d < 16 implies hex_char(d) != c by {
                assert(hex_char(d) as u32 == if d < 10 { d + 48 } else { d + 87 });
            }
        }
        None
    }
}

/// Reads at `i` the escaped text of one character.
fn unescape_at(s: &Vec<char>, i: usize) -> (r: Option<(char, usize)>)
    requires
        i < s@.len(),
    ensures
        r matches Some((c, j)) ==> i < j <= s@.len() && s@.subrange(i as int, j as int)
            == escape_char(c),
        forall|c: char, x: Seq<char>|
            s@.subrange(i as int, s@.len() as int) == #[trigger] (escape_char(c) + x) ==> r is Some,
{
    let len = s.len();
    let c = s[i];
    proof {
        assert forall|d: char, x: Seq<char>|
            s@.subrange(i as int, s@.len() as int) == #[trigger] (escape_char(d) + x) implies {
                let e = escape_char(d);
                &&& i + e.len() <= s@.len()
                &&& s@[i as int] == e[0]
                &&& e.len() > 1 ==> s@[i + 1] == e[1]
                &&& e.len() > 5 ==> s@[i + 2] == e[2] && s@[i + 3] == e[3] && s@[i + 4] == e[4]
                    && s@[i + 5] == e[5]
            } by {
            let rest = s@.subrange(i as int, s@.len() as int);
            let e = escape_char(d);
            assert(rest.len() == (e + x).len());
            assert forall|k: int| 0 <= k < e.len() implies s@[i + k] == #[trigger] e[k] by {
                assert(rest[k] == (e + x)[k]);
                assert(rest[k] == s@[i + k]);
            }
            assert(e.len() > 0);
            assert(s@[i + 0] == e[0]);
            if e.len() > 1 {
                assert(s@[i + 1] == e[1]);
            }
            if e.len() > 5 {
                assert(s@[i + 2] == e[2]);
                assert(s@[i + 3] == e[3]);
                assert(s@[i + 4] == e[4]);
                assert(s@[i + 5] == e[5]);
            }
        }
    }
    if c == '\\' {
        if i + 1 >= len {
            return None;
        }
        let d = s[i + 1];
        if d == '"' {
            assert(s@.subrange(i as int, i + 2) =~= escape_char('"'));
            return Some(('"', i + 2));
        }
        if d == '\\' {
            assert(s@.subrange(i as int, i + 2) =~= escape_char('\\'));
            return Some(('\\', i + 2));
        }
        if d != 'u' || len - i < 6 || s[i + 2] != '0' || s[i + 3] != '0' {
            return None;
        }
        let hi = hex_value(s[i + 4]);
        let lo = hex_value(s[i + 5]);
        match (hi, lo) {
            (Some(h), Some(l)) => {
                if h >= 2 {
                    return None;
                }
                let v: u32 = h * 16 + l;
                let ch = (v as u8) as char;
                assert(ch as u32 == v);
                assert(v / 16 == h && v % 16 == l);
                assert(s@.subrange(i as int, i + 6) =~= escape_char(ch));
                Some((ch, i + 6))
            },
            _ => None,
        }
    } else if c == '"' || (c as u32) < 32 {
        None
    } else {
        assert(s@.subrange(i as int, i + 1) =~= escape_char(c));
        Some((c, i + 1))
    }
}

/// Reads at `pos` an escaped string up to its closing quote: the string, and
/// the position of that quote.
fn parse_str(s: &Vec<char>, pos: usize) -> (r: Option<(String, usize)>)
    requires
        pos <= s@.len(),
    ensures
        r matches Some((l, e)) ==> pos <= e < s@.len() && s@.subrange(pos as int, e as int)
            == escaped(l@) && s@[e as int] == '"',
        (exists|l: Seq<char>, x: Seq<char>|
            s@.subrange(pos as int, s@.len() as int) == escaped(l) + seq!['"'] + x) ==> r is Some,
{
    let ghost has = exists|l: Seq<char>, x: Seq<char>|
        s@.subrange(pos as int, s@.len() as int) == escaped(l) + seq!['"'] + x;
    let ghost tl: Seq<char> = Seq::empty();
    let ghost tx: Seq<char> = Seq::empty();
    proof {
        if has {
            let (a, b) = choose|l: Seq<char>, x: Seq<char>|
                s@.subrange(pos as int, s@.len() as int) == escaped(l) + seq!['"'] + x;
            tl = a;
            tx = b;
            assert(tl.subrange(0, 0) =~= Seq::<char>::empty());
            assert(tl.subrange(0, tl.len() as int) =~= tl);
        }
        assert(escaped(Seq::<char>::empty()) =~= Seq::<char>::empty());
        assert(s@.subrange(pos as int, pos as int) =~= Seq::<char>::empty());
    }
    let len = s.len();
    let mut i: usize = pos;
    let mut acc = String::new();
    while i < len
        invariant
            pos <= i <= len,
            len == s@.len(),
            s@.subrange(pos as int, i as int) == escaped(acc@),
            has == (exists|l: Seq<char>, x: Seq<char>|
                s@.subrange(pos as int, s@.len() as int) == escaped(l) + seq!['"'] + x),
            has ==> acc@.len() <= tl.len() && acc@ == tl.subrange(0, acc@.len() as int)
                && s@.subrange(i as int, len as int) == escaped(
                tl.subrange(acc@.len() as int, tl.len() as int),
            ) + seq!['"'] + tx,
        decreases len - i,
    {
        if s[i] == '"' {
            return Some((acc, i));
        }
        let ghost k = acc@.len() as int;
        let ghost rest_l = tl.subrange(k, tl.len() as int);
        let ghost tail = s@.subrange(i as int, len as int);
        proof {
            if has {
                assert(tail[0] == s@[i as int]);
                if rest_l.len() == 0 {
                    assert(escaped(rest_l) =~= Seq::<char>::empty());
                    assert((escaped(rest_l) + seq!['"'] + tx)[0] == '"');
                    assert(false);
                }
                assert(escaped(rest_l) == escape_char(rest_l[0]) + escaped(rest_l.drop_first()));
                assert(tail =~= escape_char(rest_l[0]) + (escaped(rest_l.drop_first()) + seq!['"']
                    + tx));
            }
        }
        match unescape_at(s, i) {
            None => {
                return None;
            },
            Some((c, j)) => {
                proof {
                    if has {
                        assert(tail =~= escape_char(c) + s@.subrange(j as int, len as int));
                        lemma_escape_char_prefix(
                            c,
                            rest_l[0],
                            s@.subrange(j as int, len as int),
                            escaped(rest_l.drop_first()) + seq!['"'] + tx,
                        );
                        assert(tl.subrange(0, k + 1) =~= acc@.push(c));
                        assert(rest_l.drop_first() =~= tl.subrange(k + 1, tl.len() as int));
                    }
                    lemma_escaped_push(acc@, c);
                    assert(s@.subrange(pos as int, j as int) =~= s@.subrange(pos as int, i as int)
                        + s@.subrange(i as int, j as int));
                }
                push_char(&mut acc, c);
                i = j;
            },
        }
    }
    proof {
        if has {
            let rest_l = tl.subrange(acc@.len() as int, tl.len() as int);
            assert(s@.subrange(i as int, len as int).len() == 0);
            assert((escaped(rest_l) + seq!['"'] + tx).len() > 0);
        }
    }
    None
}

/// Whether every pid of a batch model fits in an `i32`.
pub open spec fn pids_fit(b: Seq<SnapshotModel>) -> bool {
    forall|i: int| 0 <= i < b.len() ==> i32::MIN <= #[trigger] b[i].pid <= i32::MAX
}

proof fn lemma_split(s: Seq<char>, p: int, a: Seq<char>, b: Seq<char>)
    requires
        0 <= p <= s.len(),
        s.subrange(p, s.len() as int) == a + b,
    ensures
        p + a.len() <= s.len(),
        s.subrange(p, p + a.len()) == a,
        s.subrange(p + a.len(), s.len() as int) == b,
{
    let t = s.subrange(p, s.len() as int);
    assert(t.len() == a.len() + b.len());
    assert(s.subrange(p, p + a.len()) =~= t.subrange(0, a.len() as int));
    assert(t.subrange(0, a.len() as int) =~= a);
    assert(s.subrange(p + a.len(), s.len() as int) =~= t.subrange(a.len() as int, t.len() as int));
    assert(t.subrange(a.len() as int, t.len() as int) =~= b);
}

fn matches_at(s: &Vec<char>, pos: usize, lit: &[char]) -> (r: bool)
    requires
        pos <= s@.len(),
    ensures
        r == (pos + lit@.len() <= s@.len() && s@.subrange(pos as int, pos + lit@.len()) == lit@),
{
    if s.len() - pos < lit.len() {
        return false;
    }
    let n = s.len();
    let mut k: usize = 0;
    while k < lit.len()
        invariant
            n == s@.len(),
            k <= lit@.len(),
            pos + lit@.len() <= s@.len(),
            s@.subrange(pos as int, pos + k) == lit@.subrange(0, k as int),
        decreases lit@.len() - k,
    {
        if s[pos + k] != lit[k] {
            assert(s@.subrange(pos as int, pos + lit@.len())[k as int] == s@[pos + k]);
            return false;
        }
        k = k + 1;
        assert(s@.subrange(pos as int, pos + k) =~= lit@.subrange(0, k as int));
    }
    assert(lit@.subrange(0, lit@.len() as int) =~= lit@);
    true
}

/// Reads at `pos` the text of one record.
fn parse_record(s: &Vec<char>, pos: usize) -> (r: Option<(SyscallInfo, usize)>)
    requires
        pos <= s@.len(),
    ensures
        r matches Some((v, e)) ==> pos < e <= s@.len() && s@.subrange(pos as int, e as int)
            == record_text(v@),
        (exists|m: SnapshotModel, x: Seq<char>|
            i32::MIN <= m.pid <= i32::MAX && s@.subrange(pos as int, s@.len() as int)
                == record_text(m) + x) ==> r is Some,
{
    let ghost has = exists|m: SnapshotModel, x: Seq<char>|
        i32::MIN <= m.pid <= i32::MAX && s@.subrange(pos as int, s@.len() as int) == record_text(m)
            + x;
    let ghost tm = SnapshotModel { pid: 0, line: Seq::empty() };
    let ghost tx: Seq<char> = Seq::empty();
    proof {
        if has {
            let (a, b) = choose|m: SnapshotModel, x: Seq<char>|
                i32::MIN <= m.pid <= i32::MAX && s@.subrange(pos as int, s@.len() as int)
                    == record_text(m) + x;
            tm = a;
            tx = b;
        }
    }
    let ghost after_int = line_open() + escaped(tm.line) + seq!['"', '}'] + tx;
    let len = s.len();
    proof {
        if has {
            assert(record_text(tm) + tx =~= pid_open() + (int_text(tm.pid) + after_int));
            lemma_split(s@, pos as int, pid_open(), int_text(tm.pid) + after_int);
        }
    }
    if !matches_at(s, pos, &['{', '"', 'p', 'i', 'd', '"', ':']) {
        return None;
    }
    let p1 = pos + 7;
    proof {
        if has {
            assert(after_int[0] == ',');
            let n = tm.pid as i32;
            assert(int_text(n as int) == int_text(tm.pid));
            assert(s@.subrange(p1 as int, s@.len() as int) == int_text(n as int) + after_int);
        }
    }
    let (v, e) = match parse_int(s, p1) {
        Some(p) => p,
        None => {
            return None;
        },
    };
    let ghost after_line = escaped(tm.line) + seq!['"'] + (seq!['}'] + tx);
    proof {
        let y = s@.subrange(e as int, s@.len() as int);
        assert(s@.subrange(p1 as int, s@.len() as int) =~= int_text(v as int) + y);
        assert(y[0] == s@[e as int]);
        if has {
            lemma_int_text_prefix(v as int, tm.pid, y, after_int);
            assert(after_int =~= line_open() + after_line);
            lemma_split(s@, e as int, line_open(), after_line);
        }
    }
    if !matches_at(s, e, &[',', '"', 's', 'y', 's', 'c', 'a', 'l', 'l', 'L', 'i', 'n', 'e', '"', ':', '"']) {
        return None;
    }
    let p2 = e + 16;
    let (line, q) = match parse_str(s, p2) {
        Some(p) => p,
        None => {
            return None;
        },
    };
    proof {
        let z = s@.subrange(q + 1, s@.len() as int);
        assert(s@.subrange(p2 as int, s@.len() as int) =~= escaped(line@) + seq!['"'] + z);
        if has {
            lemma_escaped_prefix(line@, tm.line, z, seq!['}'] + tx);
            assert(z[0] == '}');
            assert(z[0] == s@[q + 1]);
        }
    }
    if q + 1 >= len || s[q + 1] != '}' {
        return None;
    }
    let info = SyscallInfo { pid: v, syscall_line: line };
    proof {
        assert(s@.subrange(pos as int, q + 2) =~= s@.subrange(pos as int, p1 as int) + s@.subrange(
            p1 as int,
            e as int,
        ) + s@.subrange(e as int, p2 as int) + s@.subrange(p2 as int, q as int) + s@.subrange(
            q as int,
            q + 2,
        ));
        assert(s@.subrange(q as int, q + 2) =~= seq!['"', '}']);
        assert(s@.subrange(pos as int, q + 2) =~= record_text(info@));
    }
    Some((info, q + 2))
}

/// Reads a batch back from the text that the store holds for it. Gives the
/// batch whose text this is, and `None` where the text is no batch's text.
#[verifier::rlimit(60)]
pub fn decode_batch(text: &str) -> (r: Option<Vec<SyscallInfo>>)
    ensures
        match r {
            Some(v) => batch_text(batch_model(v@)) == text@,
            None => forall|b: Seq<SnapshotModel>| pids_fit(b) ==> batch_text(b) != text@,
        },
        forall|b: Seq<SnapshotModel>|
            pids_fit(b) && batch_text(b) == text@ ==> (r matches Some(v) && batch_model(v@) == b),
{
    let s = chars_of(text);
    let len = s.len();
    let ghost has = exists|b: Seq<SnapshotModel>| pids_fit(b) && batch_text(b) == s@;
    let ghost tb: Seq<SnapshotModel> = Seq::empty();
    proof {
        if has {
            tb = choose|b: Seq<SnapshotModel>| pids_fit(b) && batch_text(b) == s@;
            assert(s@[0] == '[');
            if tb.len() > 0 {
                lemma_record_starts_with_brace(tb[0]);
                assert(s@ =~= seq!['['] + (record_text(tb[0]) + (rest_text(tb.drop_first())
                    + seq![']'])));
                assert(s@[1] == '{');
            } else {
                assert(s@ =~= seq!['[', ']']);
            }
        }
    }
    if len < 2 || s[0] != '[' {
        return None;
    }
    if s[1] == ']' {
        if len == 2 {
            let out: Vec<SyscallInfo> = Vec::new();
            proof {
                assert(batch_model(out@) =~= Seq::<SnapshotModel>::empty());
                assert(s@ =~= batch_text(batch_model(out@)));
                assert forall|b: Seq<SnapshotModel>|
                    pids_fit(b) && batch_text(b) == text@ implies batch_model(out@) == b by {
                    lemma_batch_text_injective(b, batch_model(out@));
                }
            }
            return Some(out);
        }
        return None;
    }
    proof {
        if has {
            assert(tb.len() > 0);
            assert(pids_fit(tb));
            assert(i32::MIN <= tb[0].pid <= i32::MAX);
            assert(s@.subrange(1, len as int) =~= record_text(tb[0]) + (rest_text(tb.drop_first())
                + seq![']']));
        }
    }
    let (first, e0) = match parse_record(&s, 1) {
        Some(p) => p,
        None => {
            return None;
        },
    };
    let mut out: Vec<SyscallInfo> = Vec::new();
    out.push(first);
    let mut i: usize = e0;
    proof {
        let y = s@.subrange(e0 as int, len as int);
        assert(s@.subrange(1, len as int) =~= record_text(first@) + y);
        if has {
            lemma_record_prefix(first@, tb[0], y, rest_text(tb.drop_first()) + seq![']']);
            assert(batch_model(out@) =~= tb.subrange(0, 1));
            assert(tb.subrange(1, tb.len() as int) =~= tb.drop_first());
        }
        assert(batch_model(out@) =~= seq![first@]);
        assert(seq![first@].drop_first() =~= Seq::<SnapshotModel>::empty());
        assert(rest_text(Seq::<SnapshotModel>::empty()) =~= Seq::<char>::empty());
        assert(items_text(batch_model(out@)) =~= record_text(first@));
        assert(s@.subrange(0, i as int) =~= seq!['['] + items_text(batch_model(out@)));
    }
    while i < len
        invariant
            1 <= i <= len,
            len == s@.len(),
            s@ == text@,
            out@.len() >= 1,
            s@.subrange(0, i as int) == seq!['['] + items_text(batch_model(out@)),
            has == (exists|b: Seq<SnapshotModel>| pids_fit(b) && batch_text(b) == s@),
            has ==> pids_fit(tb) && batch_text(tb) == s@,
            has ==> out@.len() <= tb.len() && batch_model(out@) == tb.subrange(0, out@.len() as int)
                && s@.subrange(i as int, len as int) == rest_text(
                tb.subrange(out@.len() as int, tb.len() as int),
            ) + seq![']'],
        decreases len - i,
    {
        let ghost k = out@.len() as int;
        let ghost rest_b = tb.subrange(k, tb.len() as int);
        let ghost tail = s@.subrange(i as int, len as int);
        proof {
            assert(tail[0] == s@[i as int]);
            if has {
                if rest_b.len() == 0 {
                    assert(rest_text(rest_b) =~= Seq::<char>::empty());
                    assert(tail =~= seq![']']);
                } else {
                    assert(tail =~= seq![','] + (record_text(rest_b[0]) + (rest_text(
                        rest_b.drop_first(),
                    ) + seq![']'])));
                }
            }
        }
        if s[i] == ']' {
            if i + 1 == len {
                proof {
                    assert(s@ =~= s@.subrange(0, i as int) + seq![']']);
                    assert(s@ =~= batch_text(batch_model(out@)));
                    assert forall|b: Seq<SnapshotModel>|
                        pids_fit(b) && batch_text(b) == text@ implies batch_model(out@) == b by {
                        lemma_batch_text_injective(b, batch_model(out@));
                    }
                }
                return Some(out);
            }
            return None;
        }
        if s[i] != ',' {
            return None;
        }
        proof {
            assert(s@.subrange(i + 1, len as int) =~= tail.drop_first());
            if has {
                if rest_b.len() == 0 {
                    assert(tail[0] == ']');
                }
                assert(rest_b.len() > 0);
                assert(i32::MIN <= tb[k].pid <= i32::MAX);
                assert(rest_b[0] == tb[k]);
                let w = record_text(rest_b[0]) + (rest_text(rest_b.drop_first()) + seq![']']);
                assert(tail =~= seq![','] + w);
                assert(tail.drop_first() =~= w);
            }
        }
        let (rec, e) = match parse_record(&s, i + 1) {
            Some(p) => p,
            None => {
                return None;
            },
        };
        proof {
            let y = s@.subrange(e as int, len as int);
            assert(s@.subrange(i + 1, len as int) =~= record_text(rec@) + y);
            if has {
                lemma_record_prefix(rec@, rest_b[0], y, rest_text(rest_b.drop_first()) + seq![']']);
                assert(rest_b.drop_first() =~= tb.subrange(k + 1, tb.len() as int));
                assert(batch_model(out@).push(rec@) =~= tb.subrange(0, k + 1));
            }
            lemma_items_push(batch_model(out@), rec@);
            assert(s@.subrange(0, e as int) =~= s@.subrange(0, i as int) + seq![','] + s@.subrange(
                i + 1,
                e as int,
            ));
        }
        let ghost before = out@;
        out.push(rec);
        proof {
            assert(batch_model(out@) =~= batch_model(before).push(rec@));
        }
        i = e;
    }
    proof {
        if has {
            let rest_b = tb.subrange(out@.len() as int, tb.len() as int);
            assert(s@.subrange(i as int, len as int).len() == 0);
            assert((rest_text(rest_b) + seq![']']).len() > 0);
        }
    }
    None
}

} // verus!
