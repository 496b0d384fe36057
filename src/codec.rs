use vstd::prelude::*;
use crate::syscall::{SyscallInfo, SnapshotModel, batch_model};
use crate::text::{int_text, nat_text, is_digit, lemma_nat_text, lemma_int_text_shape, push_all, push_char, push_decimal};

verus! {

/// A lower-case hexadecimal digit for `d` (0 to 15).
pub open spec fn hex_char(d: int) -> char {
    if d < 10 {
        ((d + 48) as u32) as char
    } else {
        ((d + 87) as u32) as char
    }
}

/// The text of one character inside a quoted string: `"` and `\` after a
/// backslash, control characters as `\u00XX`, every other character as itself.
pub open spec fn escape_char(c: char) -> Seq<char> {
    if c == '"' {
        seq!['\\', '"']
    } else if c == '\\' {
        seq!['\\', '\\']
    } else if (c as u32) < 32 {
        seq!['\\', 'u', '0', '0', hex_char((c as u32 as int) / 16), hex_char((c as u32 as int) % 16)]
    } else {
        seq![c]
    }
}

/// The escaped text of a string, without its quotes.
pub open spec fn escaped(s: Seq<char>) -> Seq<char>
    decreases s.len(),
{
    if s.len() == 0 {
        Seq::empty()
    } else {
        escape_char(s[0]) + escaped(s.drop_first())
    }
}

pub open spec fn pid_open() -> Seq<char> {
    seq!['{', '"', 'p', 'i', 'd', '"', ':']
}

pub open spec fn line_open() -> Seq<char> {
    seq![',', '"', 's', 'y', 's', 'c', 'a', 'l', 'l', 'L', 'i', 'n', 'e', '"', ':', '"']
}

pub open spec fn record_close() -> Seq<char> {
    seq!['"', '}']
}

/// The text of one snapshot: `{"pid":<pid>,"syscallLine":"<line>"}`.
pub open spec fn record_text(s: SnapshotModel) -> Seq<char> {
    pid_open() + int_text(s.pid) + line_open() + escaped(s.line) + record_close()
}

/// The records after the first, each after a comma.
pub open spec fn rest_text(b: Seq<SnapshotModel>) -> Seq<char>
    decreases b.len(),
{
    if b.len() == 0 {
        Seq::empty()
    } else {
        seq![','] + record_text(b[0]) + rest_text(b.drop_first())
    }
}

/// The records of a batch, separated by commas.
pub open spec fn items_text(b: Seq<SnapshotModel>) -> Seq<char> {
    if b.len() == 0 {
        Seq::empty()
    } else {
        record_text(b[0]) + rest_text(b.drop_first())
    }
}

/// The text of a batch: its records, separated by commas, between brackets.
pub open spec fn batch_text(b: Seq<SnapshotModel>) -> Seq<char> {
    seq!['['] + items_text(b) + seq![']']
}

fn hex_digit(d: u32) -> (c: char)
    requires
        d < 16,
    ensures
        c == hex_char(d as int),
{
    if d < 10 {
        (d as u8 + 48) as char
    } else {
        (d as u8 + 87) as char
    }
}

fn push_escaped_char(out: &mut String, c: char)
    ensures
        final(out)@ == old(out)@ + escape_char(c),
{
    if c == '"' {
        push_all(out, &['\\', '"']);
    } else if c == '\\' {
        push_all(out, &['\\', '\\']);
    } else if (c as u32) < 32 {
        let v = c as u32;
        push_all(out, &['\\', 'u', '0', '0', hex_digit(v / 16), hex_digit(v % 16)]);
    } else {
        push_char(out, c);
        assert(out@ =~= old(out)@ + escape_char(c));
    }
}

pub(crate) proof fn lemma_escaped_push(s: Seq<char>, c: char)
    ensures
        escaped(s.push(c)) == escaped(s) + escape_char(c),
    decreases s.len(),
{
    if s.len() == 0 {
        assert(s.push(c).drop_first() =~= Seq::<char>::empty());
        assert(s.push(c)[0] == c);
        assert(escaped(Seq::<char>::empty()) =~= Seq::<char>::empty());
        assert(escaped(s) =~= Seq::<char>::empty());
        assert(escaped(s.push(c)) =~= escape_char(c) + escaped(Seq::<char>::empty()));
        assert(escaped(s.push(c)) =~= escaped(s) + escape_char(c));
    } else {
        lemma_escaped_push(s.drop_first(), c);
        assert(s.push(c).drop_first() =~= s.drop_first().push(c));
        assert(escaped(s.push(c)) =~= escaped(s) + escape_char(c));
    }
}

fn push_escaped(out: &mut String, s: &str)
    ensures
        final(out)@ == old(out)@ + escaped(s@),
{
    let n = s.unicode_len();
    let mut i: usize = 0;
    while i < n
        invariant
            n == s@.len(),
            i <= n,
            out@ == old(out)@ + escaped(s@.subrange(0, i as int)),
        decreases n - i,
    {
        let c = s.get_char(i);
        push_escaped_char(out, c);
        proof {
            lemma_escaped_push(s@.subrange(0, i as int), c);
            assert(s@.subrange(0, i as int).push(c) =~= s@.subrange(0, i + 1));
        }
        i = i + 1;
        assert(out@ =~= old(out)@ + escaped(s@.subrange(0, i as int)));
    }
    assert(s@.subrange(0, n as int) =~= s@);
}

fn push_record(out: &mut String, s: &SyscallInfo)
    ensures
        final(out)@ == old(out)@ + record_text(s@),
{
    push_all(out, &['{', '"', 'p', 'i', 'd', '"', ':']);
    push_decimal(out, s.pid as i64);
    push_all(out, &[',', '"', 's', 'y', 's', 'c', 'a', 'l', 'l', 'L', 'i', 'n', 'e', '"', ':', '"']);
    push_escaped(out, s.syscall_line.as_str());
    push_all(out, &['"', '}']);
    assert(out@ =~= old(out)@ + record_text(s@));
}

proof fn lemma_rest_push(b: Seq<SnapshotModel>, x: SnapshotModel)
    ensures
        rest_text(b.push(x)) == rest_text(b) + seq![','] + record_text(x),
    decreases b.len(),
{
    if b.len() == 0 {
        assert(b.push(x).drop_first() =~= b);
        assert(rest_text(b) =~= Seq::<char>::empty());
        assert(rest_text(b.push(x)) =~= rest_text(b) + seq![','] + record_text(x));
    } else {
        lemma_rest_push(b.drop_first(), x);
        assert(b.push(x).drop_first() =~= b.drop_first().push(x));
        assert(rest_text(b.push(x)) =~= rest_text(b) + seq![','] + record_text(x));
    }
}

pub(crate) proof fn lemma_items_push(b: Seq<SnapshotModel>, x: SnapshotModel)
    ensures
        items_text(b.push(x)) == if b.len() == 0 {
            record_text(x)
        } else {
            items_text(b) + seq![','] + record_text(x)
        },
{
    if b.len() == 0 {
        assert(b.push(x).drop_first() =~= b);
        assert(rest_text(b) =~= Seq::<char>::empty());
        assert(items_text(b.push(x)) =~= record_text(x));
    } else {
        lemma_rest_push(b.drop_first(), x);
        assert(b.push(x).drop_first() =~= b.drop_first().push(x));
        assert(items_text(b.push(x)) =~= items_text(b) + seq![','] + record_text(x));
    }
}

/// The text that the store holds for a batch: a list of objects, each with
/// an integer `pid` and a string `syscallLine`.
pub fn encode_batch(batch: &Vec<SyscallInfo>) -> (r: String)
    ensures
        r@ == batch_text(batch_model(batch@)),
{
    let mut out = String::new();
    push_char(&mut out, '[');
    let mut i: usize = 0;
    while i < batch.len()
        invariant
            i <= batch@.len(),
            out@ == seq!['['] + items_text(batch_model(batch@.subrange(0, i as int))),
        decreases batch@.len() - i,
    {
        let ghost pre = batch_model(batch@.subrange(0, i as int));
        if i > 0 {
            push_char(&mut out, ',');
        }
        push_record(&mut out, &batch[i]);
        proof {
            let post = batch_model(batch@.subrange(0, i + 1));
            assert(post =~= pre.push(batch@[i as int]@));
            lemma_items_push(pre, batch@[i as int]@);
            if i == 0 {
                assert(out@ =~= seq!['['] + items_text(post));
            } else {
                assert(out@ =~= seq!['['] + items_text(post));
            }
        }
        i = i + 1;
    }
    push_char(&mut out, ']');
    assert(batch@.subrange(0, batch@.len() as int) =~= batch@);
    assert(out@ =~= batch_text(batch_model(batch@)));
    out
}

proof fn lemma_cancel_prefix(p: Seq<char>, x: Seq<char>, y: Seq<char>)
    requires
        p + x == p + y,
    ensures
        x == y,
{
    assert(x =~= (p + x).subrange(p.len() as int, (p + x).len() as int));
    assert(y =~= (p + y).subrange(p.len() as int, (p + y).len() as int));
}

/// The decimal text of a number, followed by a non-digit, gives back the
/// number and the text after it.
pub(crate) proof fn lemma_int_text_prefix(m: int, n: int, x: Seq<char>, y: Seq<char>)
    requires
        int_text(m) + x == int_text(n) + y,
        x.len() > 0,
        y.len() > 0,
        !is_digit(x[0]),
        !is_digit(y[0]),
    ensures
        m == n,
        x == y,
{
    let u = int_text(m);
    let v = int_text(n);
    lemma_int_text_shape(m);
    lemma_int_text_shape(n);
    if u.len() < v.len() {
        assert((u + x)[u.len() as int] == x[0]);
        assert((v + y)[u.len() as int] == v[u.len() as int]);
        assert(false);
    } else if v.len() < u.len() {
        assert((v + y)[v.len() as int] == y[0]);
        assert((u + x)[v.len() as int] == u[v.len() as int]);
        assert(false);
    }
    assert(u =~= (u + x).subrange(0, u.len() as int));
    assert(v =~= (v + y).subrange(0, v.len() as int));
    assert(u == v);
    lemma_cancel_prefix(u, x, y);
    if m < 0 {
        assert(u[0] == '-');
        assert(n < 0);
        assert(nat_text((-m) as nat) =~= u.drop_first());
        assert(nat_text((-n) as nat) =~= v.drop_first());
        lemma_nat_text((-m) as nat);
        lemma_nat_text((-n) as nat);
    } else {
        assert(n >= 0);
        lemma_nat_text(m as nat);
        lemma_nat_text(n as nat);
    }
}

proof fn lemma_hex_char(d: int, e: int)
    requires
        0 <= d < 16,
        0 <= e < 16,
        hex_char(d) == hex_char(e),
    ensures
        d == e,
{
    assert(hex_char(d) as u32 == hex_char(e) as u32);
}

pub(crate) proof fn lemma_escape_char_shape(c: char)
    ensures
        escape_char(c).len() > 0,
        escape_char(c)[0] != '"',
{
}

/// The escaped text of one character, followed by anything, gives back the
/// character and what follows.
pub(crate) proof fn lemma_escape_char_prefix(c: char, d: char, x: Seq<char>, y: Seq<char>)
    requires
        escape_char(c) + x == escape_char(d) + y,
    ensures
        c == d,
        x == y,
{
    let ec = escape_char(c);
    let ed = escape_char(d);
    assert((ec + x)[0] == ec[0]);
    assert((ed + y)[0] == ed[0]);
    if ec[0] == '\\' {
        assert((ec + x)[1] == ec[1]);
        assert((ed + y)[1] == ed[1]);
        if (c as u32) < 32 && c != '"' && c != '\\' {
            assert((ec + x)[4] == ec[4]);
            assert((ed + y)[4] == ed[4]);
            assert((ec + x)[5] == ec[5]);
            assert((ed + y)[5] == ed[5]);
            lemma_hex_char((c as u32 as int) / 16, (d as u32 as int) / 16);
            lemma_hex_char((c as u32 as int) % 16, (d as u32 as int) % 16);
            assert(c as u32 == d as u32);
        }
    }
    assert(c == d);
    lemma_cancel_prefix(ec, x, y);
}

/// An escaped string, followed by a quote, gives back the string and what
/// follows the quote.
pub(crate) proof fn lemma_escaped_prefix(a: Seq<char>, b: Seq<char>, x: Seq<char>, y: Seq<char>)
    requires
        escaped(a) + seq!['"'] + x == escaped(b) + seq!['"'] + y,
    ensures
        a == b,
        x == y,
    decreases a.len(),
{
    let l = escaped(a) + seq!['"'] + x;
    let r = escaped(b) + seq!['"'] + y;
    if a.len() == 0 {
        assert(escaped(a) =~= Seq::<char>::empty());
        assert(l[0] == '"');
        if b.len() > 0 {
            lemma_escape_char_shape(b[0]);
            assert(r[0] == escape_char(b[0])[0]);
            assert(false);
        }
        assert(escaped(b) =~= Seq::<char>::empty());
        assert(a =~= b);
        lemma_cancel_prefix(seq!['"'], x, y);
    } else {
        if b.len() == 0 {
            assert(escaped(b) =~= Seq::<char>::empty());
            lemma_escape_char_shape(a[0]);
            assert(l[0] == escape_char(a[0])[0]);
            assert(false);
        }
        let ta = escaped(a.drop_first()) + seq!['"'] + x;
        let tb = escaped(b.drop_first()) + seq!['"'] + y;
        assert(l =~= escape_char(a[0]) + ta);
        assert(r =~= escape_char(b[0]) + tb);
        lemma_escape_char_prefix(a[0], b[0], ta, tb);
        lemma_escaped_prefix(a.drop_first(), b.drop_first(), x, y);
        assert(a =~= seq![a[0]] + a.drop_first());
        assert(b =~= seq![b[0]] + b.drop_first());
    }
}

/// The text of a record, followed by anything, gives back the record and
/// what follows.
pub(crate) proof fn lemma_record_prefix(r: SnapshotModel, s: SnapshotModel, x: Seq<char>, y: Seq<char>)
    requires
        record_text(r) + x == record_text(s) + y,
    ensures
        r == s,
        x == y,
{
    let tr = line_open() + escaped(r.line) + record_close() + x;
    let ts = line_open() + escaped(s.line) + record_close() + y;
    assert(record_text(r) + x =~= pid_open() + (int_text(r.pid) + tr));
    assert(record_text(s) + y =~= pid_open() + (int_text(s.pid) + ts));
    lemma_cancel_prefix(pid_open(), int_text(r.pid) + tr, int_text(s.pid) + ts);
    assert(tr[0] == ',');
    assert(ts[0] == ',');
    lemma_int_text_prefix(r.pid, s.pid, tr, ts);
    let ur = escaped(r.line) + seq!['"'] + (seq!['}'] + x);
    let us = escaped(s.line) + seq!['"'] + (seq!['}'] + y);
    assert(tr =~= line_open() + ur);
    assert(ts =~= line_open() + us);
    lemma_cancel_prefix(line_open(), ur, us);
    lemma_escaped_prefix(r.line, s.line, seq!['}'] + x, seq!['}'] + y);
    lemma_cancel_prefix(seq!['}'], x, y);
}

pub(crate) proof fn lemma_record_starts_with_brace(r: SnapshotModel)
    ensures
        record_text(r).len() > 0,
        record_text(r)[0] == '{',
{
}

pub(crate) proof fn lemma_rest_prefix(a: Seq<SnapshotModel>, b: Seq<SnapshotModel>)
    requires
        rest_text(a) + seq![']'] == rest_text(b) + seq![']'],
    ensures
        a == b,
    decreases a.len(),
{
    let l = rest_text(a) + seq![']'];
    let r = rest_text(b) + seq![']'];
    if a.len() == 0 {
        assert(rest_text(a) =~= Seq::<char>::empty());
        assert(l[0] == ']');
        if b.len() > 0 {
            assert(r[0] == ',');
            assert(false);
        }
        assert(a =~= b);
    } else {
        if b.len() == 0 {
            assert(rest_text(b) =~= Seq::<char>::empty());
            assert(l[0] == ',');
            assert(false);
        }
        let ta = rest_text(a.drop_first()) + seq![']'];
        let tb = rest_text(b.drop_first()) + seq![']'];
        assert(l =~= seq![','] + (record_text(a[0]) + ta));
        assert(r =~= seq![','] + (record_text(b[0]) + tb));
        lemma_cancel_prefix(seq![','], record_text(a[0]) + ta, record_text(b[0]) + tb);
        lemma_record_prefix(a[0], b[0], ta, tb);
        lemma_rest_prefix(a.drop_first(), b.drop_first());
        assert(a =~= seq![a[0]] + a.drop_first());
        assert(b =~= seq![b[0]] + b.drop_first());
    }
}

/// The stored text determines the batch: two batches with the same text are
/// the same batch, pid for pid and line for line, in the same order. So
/// reading a batch back from its text yields exactly the batch written.
pub proof fn lemma_batch_text_injective(a: Seq<SnapshotModel>, b: Seq<SnapshotModel>)
    requires
        batch_text(a) == batch_text(b),
    ensures
        a == b,
{
    let l = items_text(a) + seq![']'];
    let r = items_text(b) + seq![']'];
    assert(batch_text(a) =~= seq!['['] + l);
    assert(batch_text(b) =~= seq!['['] + r);
    lemma_cancel_prefix(seq!['['], l, r);
    if a.len() == 0 {
        assert(items_text(a) =~= Seq::<char>::empty());
        if b.len() > 0 {
            lemma_record_starts_with_brace(b[0]);
            assert(r[0] == '{');
            assert(l[0] == ']');
            assert(false);
        }
        assert(a =~= b);
    } else {
        if b.len() == 0 {
            assert(items_text(b) =~= Seq::<char>::empty());
            lemma_record_starts_with_brace(a[0]);
            assert(l[0] == '{');
            assert(false);
        }
        let ta = rest_text(a.drop_first()) + seq![']'];
        let tb = rest_text(b.drop_first()) + seq![']'];
        assert(l =~= record_text(a[0]) + ta);
        assert(r =~= record_text(b[0]) + tb);
        lemma_record_prefix(a[0], b[0], ta, tb);
        lemma_rest_prefix(a.drop_first(), b.drop_first());
        assert(a =~= seq![a[0]] + a.drop_first());
        assert(b =~= seq![b[0]] + b.drop_first());
    }
}

} // verus!
