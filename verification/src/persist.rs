use vstd::prelude::*;

verus! {

use vstd::arithmetic::div_mod::lemma_fundamental_div_mod;

// ---------------------------------------------------------------------------
// Decimal numbers
// ---------------------------------------------------------------------------

/// The character for one decimal digit.
pub open spec fn digit_char(d: nat) -> char {
    if d == 0 {
        '0'
    } else if d == 1 {
        '1'
    } else if d == 2 {
        '2'
    } else if d == 3 {
        '3'
    } else if d == 4 {
        '4'
    } else if d == 5 {
        '5'
    } else if d == 6 {
        '6'
    } else if d == 7 {
        '7'
    } else if d == 8 {
        '8'
    } else {
        '9'
    }
}

/// The value of one decimal digit character.
pub open spec fn digit_val(c: char) -> nat {
    if c == '0' {
        0
    } else if c == '1' {
        1
    } else if c == '2' {
        2
    } else if c == '3' {
        3
    } else if c == '4' {
        4
    } else if c == '5' {
        5
    } else if c == '6' {
        6
    } else if c == '7' {
        7
    } else if c == '8' {
        8
    } else {
        9
    }
}

/// Whether a character is a decimal digit.
pub open spec fn is_digit(c: char) -> bool {
    c == '0' || c == '1' || c == '2' || c == '3' || c == '4' || c == '5' || c == '6' || c == '7'
        || c == '8' || c == '9'
}

/// The decimal text of a number, most significant digit first, no leading
/// zeros (zero itself is "0").
pub open spec fn dec_of(n: nat) -> Seq<char>
    decreases n,
{
    if n < 10 {
        seq![digit_char(n)]
    } else {
        dec_of(n / 10).push(digit_char(n % 10))
    }
}

/// Whether every character is a decimal digit.
pub open spec fn all_digits(s: Seq<char>) -> bool {
    forall|i: int| 0 <= i < s.len() ==> is_digit(#[trigger] s[i])
}

/// The number a digit string denotes.
pub open spec fn dec_val(s: Seq<char>) -> nat
    decreases s.len(),
{
    if s.len() == 0 {
        0
    } else {
        dec_val(s.drop_last()) * 10 + digit_val(s.last())
    }
}

/// The number a line denotes: some digits whose value fits in 64 bits, or
/// nothing.
pub open spec fn parse_dec(s: Seq<char>) -> Option<u64> {
    if s.len() > 0 && all_digits(s) && dec_val(s) <= u64::MAX {
        Option::Some(dec_val(s) as u64)
    } else {
        Option::None
    }
}

/// The decimal text of a number is nonempty, all digits, and denotes the
/// number itself.
pub proof fn lemma_dec_of(n: nat)
    ensures
        dec_of(n).len() >= 1,
        all_digits(dec_of(n)),
        dec_val(dec_of(n)) == n,
        is_digit(dec_of(n)[0]),
    decreases n,
{
    if n < 10 {
        let s = dec_of(n);
        assert(s.drop_last() =~= Seq::<char>::empty());
        assert(dec_val(s) == dec_val(Seq::<char>::empty()) * 10 + digit_val(digit_char(n)));
    } else {
        lemma_dec_of(n / 10);
        lemma_fundamental_div_mod(n as int, 10);
        let s = dec_of(n);
        let p = dec_of(n / 10);
        assert(s == p.push(digit_char(n % 10)));
        assert(s.drop_last() =~= p);
        assert(s.last() == digit_char(n % 10));
        assert(n % 10 < 10);
        assert(dec_val(s) == dec_val(p) * 10 + digit_val(digit_char(n % 10)));
        assert(digit_val(digit_char(n % 10)) == n % 10);
        assert forall|i: int| 0 <= i < s.len() implies is_digit(#[trigger] s[i]) by {
            if i < p.len() {
                assert(s[i] == p[i]);
            } else {
                assert(s[i] == digit_char(n % 10));
            }
        }
        assert(s[0] == p[0]);
    }
}

/// A digit string denotes at least what any of its prefixes denotes.
pub proof fn lemma_dec_val_grows(s: Seq<char>, j: int)
    requires
        0 <= j <= s.len(),
    ensures
        dec_val(s) >= dec_val(s.take(j)),
    decreases s.len() - j,
{
    if j == s.len() {
        assert(s.take(j) =~= s);
    } else {
        let a = s.take(j);
        let b = s.take(j + 1);
        assert(b.drop_last() =~= a);
        assert(b.last() == s[j]);
        assert(dec_val(b) == dec_val(a) * 10 + digit_val(s[j]));
        assert(dec_val(a) * 10 >= dec_val(a));
        lemma_dec_val_grows(s, j + 1);
    }
}

/// Reading back the decimal text of a number gives the number: the numeric
/// half of the persistence round trip.
pub proof fn lemma_dec_round_trip(n: u64)
    ensures
        parse_dec(dec_of(n as nat)) == Option::Some(n),
{
    lemma_dec_of(n as nat);
}

/// The character for one decimal digit.
fn digit_to_char(d: u64) -> (c: char)
    requires
        d < 10,
    ensures
        c == digit_char(d as nat),
{
    if d == 0 {
        '0'
    } else if d == 1 {
        '1'
    } else if d == 2 {
        '2'
    } else if d == 3 {
        '3'
    } else if d == 4 {
        '4'
    } else if d == 5 {
        '5'
    } else if d == 6 {
        '6'
    } else if d == 7 {
        '7'
    } else if d == 8 {
        '8'
    } else {
        '9'
    }
}

/// The decimal digit a character stands for, if any.
fn char_to_digit(c: char) -> (r: Option<u64>)
    ensures
        r == if is_digit(c) {
            Option::Some(digit_val(c) as u64)
        } else {
            Option::None::<u64>
        },
{
    if c == '0' {
        Option::Some(0)
    } else if c == '1' {
        Option::Some(1)
    } else if c == '2' {
        Option::Some(2)
    } else if c == '3' {
        Option::Some(3)
    } else if c == '4' {
        Option::Some(4)
    } else if c == '5' {
        Option::Some(5)
    } else if c == '6' {
        Option::Some(6)
    } else if c == '7' {
        Option::Some(7)
    } else if c == '8' {
        Option::Some(8)
    } else if c == '9' {
        Option::Some(9)
    } else {
        Option::None
    }
}

/// The decimal text of a 64-bit number.
pub fn render_u64(n: u64) -> (r: Vec<char>)
    ensures
        r@ == dec_of(n as nat),
{
    let mut out: Vec<char> = Vec::new();
    if n == 0 {
        out.push('0');
        proof {
            assert(out@ =~= dec_of(0));
        }
        return out;
    }
    let mut m: u64 = n;
    while m > 0
        invariant
            dec_of(n as nat) == if m > 0 {
                dec_of(m as nat) + out@
            } else {
                out@
            },
        decreases m,
    {
        let ghost pre = out@;
        let d = m % 10;
        let c = digit_to_char(d);
        out.insert(0, c);
        proof {
            assert(out@ =~= seq![c] + pre);
            lemma_fundamental_div_mod(m as int, 10);
        }
        let m2 = m / 10;
        proof {
            if m2 > 0 {
                assert(m >= 10);
                assert(dec_of(m as nat) == dec_of((m as nat) / 10).push(digit_char((m as nat) % 10)));
                assert(m2 as nat == (m as nat) / 10);
                assert(d as nat == (m as nat) % 10);
                assert(dec_of((m as nat) / 10).push(c) =~= dec_of((m as nat) / 10) + seq![c]);
                assert(dec_of(m2 as nat) + (seq![c] + pre) =~= (dec_of(m2 as nat) + seq![c]) + pre);
            } else {
                assert(m < 10);
                assert(d == m);
                assert(dec_of(m as nat) == seq![digit_char(m as nat)]);
                assert(seq![c] + pre =~= dec_of(m as nat) + pre);
            }
        }
        m = m2;
    }
    out
}

/// The number a digit line denotes, if it is nonempty, all digits, and fits
/// in 64 bits.
pub fn parse_u64(s: &Vec<char>) -> (r: Option<u64>)
    ensures
        r == parse_dec(s@),
{
    let n = s.len();
    if n == 0 {
        return Option::None;
    }
    let mut acc: u64 = 0;
    let mut i: usize = 0;
    while i < n
        invariant
            i <= n,
            n == s@.len(),
            all_digits(s@.take(i as int)),
            acc as nat == dec_val(s@.take(i as int)),
        decreases n - i,
    {
        let c = s[i];
        proof {
            assert(s@.take(i + 1 as int).drop_last() =~= s@.take(i as int));
            assert(s@.take(i + 1 as int).last() == s@[i as int]);
        }
        match char_to_digit(c) {
            Option::None => {
                proof {
                    assert(!is_digit(s@[i as int]));
                    assert(!all_digits(s@));
                }
                return Option::None;
            },
            Option::Some(d) => {
                proof {
                    assert(dec_val(s@.take(i + 1 as int)) == dec_val(s@.take(i as int)) * 10 + (
                    d as nat));
                }
                let o = acc.checked_mul(10);
                match o {
                    Option::None => {
                        proof {
                            assert(dec_val(s@.take(i + 1 as int)) > u64::MAX);
                            lemma_dec_val_grows(s@, i + 1);
                            assert(dec_val(s@) > u64::MAX);
                        }
                        return Option::None;
                    },
                    Option::Some(t) => {
                        let o2 = t.checked_add(d);
                        match o2 {
                            Option::None => {
                                proof {
                                    assert(dec_val(s@.take(i + 1 as int)) > u64::MAX);
                                    lemma_dec_val_grows(s@, i + 1);
                                    assert(dec_val(s@) > u64::MAX);
                                }
                                return Option::None;
                            },
                            Option::Some(v) => {
                                acc = v;
                                assert forall|j: int|
                                    0 <= j < i + 1 implies is_digit(
                                    #[trigger] s@.take(i + 1 as int)[j],
                                ) by {
                                    if j < i {
                                        assert(s@.take(i + 1 as int)[j] == s@.take(i as int)[j]);
                                    } else {
                                        assert(s@.take(i + 1 as int)[j] == s@[i as int]);
                                    }
                                }
                            },
                        }
                    },
                }
            },
        }
        i = i + 1;
    }
    proof {
        assert(s@.take(n as int) =~= s@);
    }
    Option::Some(acc)
}

// ---------------------------------------------------------------------------
// Key escaping: keys may hold any character, lines may not hold newlines
// ---------------------------------------------------------------------------

/// How one key character is written: backslash and newline are escaped, any
/// other character stands for itself.
pub open spec fn esc_char(c: char) -> Seq<char> {
    if c == '\\' {
        seq!['\\', '\\']
    } else if c == '\n' {
        seq!['\\', 'n']
    } else {
        seq![c]
    }
}

/// A key written as one newline-free line.
pub open spec fn esc(s: Seq<char>) -> Seq<char>
    decreases s.len(),
{
    if s.len() == 0 {
        Seq::empty()
    } else {
        esc_char(s[0]) + esc(s.drop_first())
    }
}

/// The key a line stands for, or nothing when an escape is dangling or
/// unknown.
pub open spec fn unesc(s: Seq<char>) -> Option<Seq<char>>
    decreases s.len(),
{
    if s.len() == 0 {
        Option::Some(Seq::empty())
    } else if s[0] == '\\' {
        if s.len() == 1 {
            Option::None
        } else {
            let decoded = if s[1] == '\\' {
                Option::Some('\\')
            } else if s[1] == 'n' {
                Option::Some('\n')
            } else {
                Option::None
            };
            match decoded {
                Option::None => Option::None,
                Option::Some(c) => match unesc(s.skip(2)) {
                    Option::None => Option::None,
                    Option::Some(r) => Option::Some(seq![c] + r),
                },
            }
        }
    } else {
        match unesc(s.drop_first()) {
            Option::None => Option::None,
            Option::Some(r) => Option::Some(seq![s[0]] + r),
        }
    }
}

/// Escaping distributes over concatenation.
pub proof fn lemma_esc_concat(a: Seq<char>, b: Seq<char>)
    ensures
        esc(a + b) == esc(a) + esc(b),
    decreases a.len(),
{
    if a.len() == 0 {
        assert(a + b =~= b);
        assert(esc(a) + esc(b) =~= esc(b));
    } else {
        assert((a + b)[0] == a[0]);
        assert((a + b).drop_first() =~= a.drop_first() + b);
        lemma_esc_concat(a.drop_first(), b);
        assert(esc_char(a[0]) + (esc(a.drop_first()) + esc(b)) =~= (esc_char(a[0]) + esc(
            a.drop_first(),
        )) + esc(b));
    }
}

/// An escaped key holds no newline.
pub proof fn lemma_esc_no_newline(s: Seq<char>)
    ensures
        forall|i: int| 0 <= i < esc(s).len() ==> #[trigger] esc(s)[i] != '\n',
    decreases s.len(),
{
    if s.len() == 0 {
    } else {
        lemma_esc_no_newline(s.drop_first());
        let e = esc(s);
        let hd = esc_char(s[0]);
        let tl = esc(s.drop_first());
        assert forall|i: int| 0 <= i < e.len() implies #[trigger] e[i] != '\n' by {
            if i < hd.len() {
                assert(e[i] == hd[i]);
            } else {
                assert(e[i] == tl[i - hd.len()]);
            }
        }
    }
}

/// Reading back an escaped key gives the key: the key half of the
/// persistence round trip.
pub proof fn lemma_unesc_esc(s: Seq<char>)
    ensures
        unesc(esc(s)) == Option::Some(s),
    decreases s.len(),
{
    if s.len() == 0 {
    } else {
        lemma_unesc_esc(s.drop_first());
        let e = esc(s);
        let hd = esc_char(s[0]);
        let tl = esc(s.drop_first());
        assert(e == hd + tl);
        if s[0] == '\\' {
            assert(e[0] == '\\');
            assert(e[1] == '\\');
            assert(e.skip(2) =~= tl);
            assert(seq!['\\'] + s.drop_first() =~= s);
        } else if s[0] == '\n' {
            assert(e[0] == '\\');
            assert(e[1] == 'n');
            assert(e.skip(2) =~= tl);
            assert(seq!['\n'] + s.drop_first() =~= s);
        } else {
            assert(e[0] == s[0]);
            assert(e.drop_first() =~= tl);
            assert(seq![s[0]] + s.drop_first() =~= s);
        }
    }
}

/// A key written as one newline-free line.
pub fn escape_key(v: &Vec<char>) -> (r: Vec<char>)
    ensures
        r@ == esc(v@),
{
    let mut out: Vec<char> = Vec::new();
    let mut i: usize = 0;
    while i < v.len()
        invariant
            i <= v@.len(),
            out@ == esc(v@.take(i as int)),
        decreases v@.len() - i,
    {
        let ghost pre = out@;
        let c = v[i];
        proof {
            assert(v@.take(i + 1 as int) =~= v@.take(i as int) + seq![v@[i as int]]);
            lemma_esc_concat(v@.take(i as int), seq![v@[i as int]]);
            assert(seq![v@[i as int]].drop_first() =~= Seq::<char>::empty());
            assert(esc(Seq::<char>::empty()) =~= Seq::<char>::empty());
            assert(esc(seq![v@[i as int]]) =~= esc_char(v@[i as int]));
        }
        if c == '\\' {
            out.push('\\');
            out.push('\\');
            proof {
                assert(out@ =~= pre + esc_char(c));
            }
        } else if c == '\n' {
            out.push('\\');
            out.push('n');
            proof {
                assert(out@ =~= pre + esc_char(c));
            }
        } else {
            out.push(c);
            proof {
                assert(out@ =~= pre + esc_char(c));
            }
        }
        i = i + 1;
    }
    proof {
        assert(v@.take(v@.len() as int) =~= v@);
    }
    out
}

/// The key a line stands for, if its escapes are well formed.
pub fn unescape_key(v: &Vec<char>) -> (r: Option<Vec<char>>)
    ensures
        match r {
            Option::Some(k) => unesc(v@) == Option::Some(k@),
            Option::None => unesc(v@) is None,
        },
{
    let n = v.len();
    let mut out: Vec<char> = Vec::new();
    let mut i: usize = 0;
    proof {
        assert(v@.skip(0) =~= v@);
        match unesc(v@) {
            Option::None => {
            },
            Option::Some(t) => {
                assert(Seq::<char>::empty() + t =~= t);
            },
        }
    }
    while i < n
        invariant
            i <= n,
            n == v@.len(),
            unesc(v@) == match unesc(v@.skip(i as int)) {
                Option::None => Option::None::<Seq<char>>,
                Option::Some(t) => Option::Some(out@ + t),
            },
        decreases n - i,
    {
        let ghost rest = v@.skip(i as int);
        let ghost pre = out@;
        proof {
            assert(rest[0] == v@[i as int]);
        }
        let c = v[i];
        if c == '\\' {
            if i + 1 == n {
                proof {
                    assert(rest.len() == 1);
                    assert(unesc(rest) is None);
                }
                return Option::None;
            }
            proof {
                assert(rest.len() >= 2);
                assert(rest[1] == v@[i as int + 1]);
                assert(rest.skip(2) =~= v@.skip(i as int + 2));
            }
            let d = v[i + 1];
            if d == '\\' {
                out.push('\\');
            } else if d == 'n' {
                out.push('\n');
            } else {
                proof {
                    assert(unesc(rest) is None);
                }
                return Option::None;
            }
            proof {
                let dc = if d == '\\' {
                    '\\'
                } else {
                    '\n'
                };
                assert(out@ == pre.push(dc));
                match unesc(v@.skip(i as int + 2)) {
                    Option::None => {
                        assert(unesc(rest) is None);
                    },
                    Option::Some(t) => {
                        assert(unesc(rest) == Option::Some(seq![dc] + t));
                        assert(pre + (seq![dc] + t) =~= pre.push(dc) + t);
                    },
                }
            }
            i = i + 2;
        } else {
            out.push(c);
            proof {
                assert(rest.drop_first() =~= v@.skip(i as int + 1));
                match unesc(v@.skip(i as int + 1)) {
                    Option::None => {
                        assert(unesc(rest) is None);
                    },
                    Option::Some(t) => {
                        assert(unesc(rest) == Option::Some(seq![c] + t));
                        assert(pre + (seq![c] + t) =~= pre.push(c) + t);
                    },
                }
            }
            i = i + 1;
        }
    }
    proof {
        assert(v@.skip(n as int) =~= Seq::<char>::empty());
    }
    Option::Some(out)
}

// ---------------------------------------------------------------------------
// The durable record: one mark line, then one escaped key per line
// ---------------------------------------------------------------------------

/// The first line of the record: the high-water mark in decimal, or "none".
pub open spec fn mark_text(mark: Option<u64>) -> Seq<char> {
    match mark {
        Option::None => seq!['n', 'o', 'n', 'e'],
        Option::Some(n) => dec_of(n as nat),
    }
}

/// The mark a first line denotes, or nothing when it is malformed.
pub open spec fn parse_mark(line: Seq<char>) -> Option<Option<u64>> {
    if line == seq!['n', 'o', 'n', 'e'] {
        Option::Some(Option::None)
    } else {
        match parse_dec(line) {
            Option::None => Option::None,
            Option::Some(n) => Option::Some(Option::Some(n)),
        }
    }
}

/// The key lines of the record, each escaped and newline-terminated.
pub open spec fn render_keys(keys: Seq<Seq<char>>) -> Seq<char>
    decreases keys.len(),
{
    if keys.len() == 0 {
        Seq::empty()
    } else {
        esc(keys[0]) + seq!['\n'] + render_keys(keys.drop_first())
    }
}

/// The whole durable record of a deduplication state.
pub open spec fn render_state(keys: Seq<Seq<char>>, mark: Option<u64>) -> Seq<char> {
    mark_text(mark) + seq!['\n'] + render_keys(keys)
}

/// The keys the record's remaining text denotes, with `cur` the line read so
/// far; every line, the last included, must end in a newline.
pub open spec fn parse_keys_acc(s: Seq<char>, cur: Seq<char>) -> Option<Seq<Seq<char>>>
    decreases s.len(),
{
    if s.len() == 0 {
        if cur.len() == 0 {
            Option::Some(Seq::empty())
        } else {
            Option::None
        }
    } else if s[0] == '\n' {
        match unesc(cur) {
            Option::None => Option::None,
            Option::Some(k) => match parse_keys_acc(s.drop_first(), Seq::empty()) {
                Option::None => Option::None,
                Option::Some(ks) => Option::Some(seq![k] + ks),
            },
        }
    } else {
        parse_keys_acc(s.drop_first(), cur.push(s[0]))
    }
}

/// The state a record's text denotes, with `cur` the first line read so far.
pub open spec fn parse_state_acc(s: Seq<char>, cur: Seq<char>) -> Option<
    (Seq<Seq<char>>, Option<u64>),
>
    decreases s.len(),
{
    if s.len() == 0 {
        Option::None
    } else if s[0] == '\n' {
        match parse_mark(cur) {
            Option::None => Option::None,
            Option::Some(mark) => match parse_keys_acc(s.drop_first(), Seq::empty()) {
                Option::None => Option::None,
                Option::Some(ks) => Option::Some((ks, mark)),
            },
        }
    } else {
        parse_state_acc(s.drop_first(), cur.push(s[0]))
    }
}

/// The state a record's text denotes, or nothing when the record is corrupt.
pub open spec fn parse_state(s: Seq<char>) -> Option<(Seq<Seq<char>>, Option<u64>)> {
    parse_state_acc(s, Seq::empty())
}

/// Reading a newline-free prefix only accumulates it onto the current line.
pub proof fn lemma_keys_acc_shift(a: Seq<char>, rest: Seq<char>, cur: Seq<char>)
    requires
        forall|i: int| 0 <= i < a.len() ==> #[trigger] a[i] != '\n',
    ensures
        parse_keys_acc(a + rest, cur) == parse_keys_acc(rest, cur + a),
    decreases a.len(),
{
    if a.len() == 0 {
        assert(a + rest =~= rest);
        assert(cur + a =~= cur);
    } else {
        assert((a + rest)[0] == a[0]);
        assert((a + rest).drop_first() =~= a.drop_first() + rest);
        lemma_keys_acc_shift(a.drop_first(), rest, cur.push(a[0]));
        assert(cur.push(a[0]) + a.drop_first() =~= cur + a);
    }
}

/// Reading a newline-free prefix only accumulates it onto the first line.
pub proof fn lemma_state_acc_shift(a: Seq<char>, rest: Seq<char>, cur: Seq<char>)
    requires
        forall|i: int| 0 <= i < a.len() ==> #[trigger] a[i] != '\n',
    ensures
        parse_state_acc(a + rest, cur) == parse_state_acc(rest, cur + a),
    decreases a.len(),
{
    if a.len() == 0 {
        assert(a + rest =~= rest);
        assert(cur + a =~= cur);
    } else {
        assert((a + rest)[0] == a[0]);
        assert((a + rest).drop_first() =~= a.drop_first() + rest);
        lemma_state_acc_shift(a.drop_first(), rest, cur.push(a[0]));
        assert(cur.push(a[0]) + a.drop_first() =~= cur + a);
    }
}

/// Reading back written key lines gives the keys.
pub proof fn lemma_parse_render_keys(keys: Seq<Seq<char>>)
    ensures
        parse_keys_acc(render_keys(keys), Seq::empty()) == Option::Some(keys),
    decreases keys.len(),
{
    if keys.len() == 0 {
        assert(keys =~= Seq::<Seq<char>>::empty());
    } else {
        let k0 = keys[0];
        let rest_r = render_keys(keys.drop_first());
        assert(render_keys(keys) == esc(k0) + seq!['\n'] + rest_r);
        assert(esc(k0) + seq!['\n'] + rest_r =~= esc(k0) + (seq!['\n'] + rest_r));
        lemma_esc_no_newline(k0);
        lemma_keys_acc_shift(esc(k0), seq!['\n'] + rest_r, Seq::empty());
        assert(Seq::<char>::empty() + esc(k0) =~= esc(k0));
        lemma_unesc_esc(k0);
        assert((seq!['\n'] + rest_r)[0] == '\n');
        assert((seq!['\n'] + rest_r).drop_first() =~= rest_r);
        lemma_parse_render_keys(keys.drop_first());
        assert(seq![k0] + keys.drop_first() =~= keys);
    }
}

/// The written mark line holds no newline and reads back as the mark.
pub proof fn lemma_mark_text(mark: Option<u64>)
    ensures
        forall|i: int| 0 <= i < mark_text(mark).len() ==> #[trigger] mark_text(mark)[i] != '\n',
        parse_mark(mark_text(mark)) == Option::Some(mark),
{
    let s = mark_text(mark);
    match mark {
        Option::None => {
            assert forall|i: int| 0 <= i < s.len() implies #[trigger] s[i] != '\n' by {
                if i == 0 {
                    assert(s[i] == 'n');
                } else if i == 1 {
                    assert(s[i] == 'o');
                } else if i == 2 {
                    assert(s[i] == 'n');
                } else {
                    assert(s[i] == 'e');
                }
            }
        },
        Option::Some(n) => {
            lemma_dec_of(n as nat);
            lemma_dec_round_trip(n);
            assert forall|i: int| 0 <= i < s.len() implies #[trigger] s[i] != '\n' by {
                assert(is_digit(s[i]));
            }
            assert(s != seq!['n', 'o', 'n', 'e']) by {
                if s == seq!['n', 'o', 'n', 'e'] {
                    assert(s[0] == 'n');
                    assert(is_digit(s[0]));
                }
            }
        },
    }
}

/// Persistence round trip: reading back a written state gives exactly the
/// keys and the mark that were written.
pub proof fn lemma_persist_round_trip(keys: Seq<Seq<char>>, mark: Option<u64>)
    ensures
        parse_state(render_state(keys, mark)) == Option::Some((keys, mark)),
{
    lemma_mark_text(mark);
    let tail = seq!['\n'] + render_keys(keys);
    assert(render_state(keys, mark) =~= mark_text(mark) + tail);
    lemma_state_acc_shift(mark_text(mark), tail, Seq::empty());
    assert(Seq::<char>::empty() + mark_text(mark) =~= mark_text(mark));
    assert(tail[0] == '\n');
    assert(tail.drop_first() =~= render_keys(keys));
    lemma_parse_render_keys(keys);
}

/// Writing one more key appends its escaped line.
pub proof fn lemma_render_keys_push(keys: Seq<Seq<char>>, k: Seq<char>)
    ensures
        render_keys(keys.push(k)) == render_keys(keys) + esc(k) + seq!['\n'],
    decreases keys.len(),
{
    if keys.len() == 0 {
        assert(keys.push(k)[0] == k);
        assert(keys.push(k).drop_first() =~= keys);
        assert(render_keys(keys.push(k)) =~= render_keys(keys) + esc(k) + seq!['\n']);
    } else {
        assert(keys.push(k)[0] == keys[0]);
        assert(keys.push(k).drop_first() =~= keys.drop_first().push(k));
        lemma_render_keys_push(keys.drop_first(), k);
        assert(esc(keys[0]) + seq!['\n'] + (render_keys(keys.drop_first()) + esc(k) + seq!['\n'])
            =~= (esc(keys[0]) + seq!['\n'] + render_keys(keys.drop_first())) + esc(k) + seq!['\n']);
    }
}

// ---------------------------------------------------------------------------
// Saving and loading
// ---------------------------------------------------------------------------

use crate::dedup::DedupState;
use crate::dedup::distinct_keys;
use crate::dedup::key_views;
use crate::text::chars_of;
use crate::text::string_of;

/// Why a stored record could not be loaded. A missing file is not an error
/// of the record: the caller starts from an empty state instead. A present
/// but corrupt record is reported, never silently discarded.
#[derive(Clone, Copy, PartialEq, Eq, Structural, Debug)]
pub enum LoadError {
    /// The record's text does not parse.
    Malformed,
    /// The record parses but holds the same key twice.
    DuplicateKey,
}

/// The durable text of a deduplication state: the high-water line, then one
/// escaped key per line. Writing it to disk, atomically, is the caller's
/// part.
pub fn save_state(state: &DedupState) -> (r: String)
    ensures
        r@ == render_state(state.seen_keys(), state.high_water()),
{
    let mut out: Vec<char> = Vec::new();
    match state.high_water_mark() {
        Option::None => {
            out.push('n');
            out.push('o');
            out.push('n');
            out.push('e');
            proof {
                assert(out@ =~= mark_text(Option::None));
            }
        },
        Option::Some(n) => {
            let mut digits = render_u64(n);
            out.append(&mut digits);
            proof {
                assert(out@ =~= mark_text(Option::Some(n)));
            }
        },
    }
    out.push('\n');
    proof {
        assert(state.seen_keys().take(0) =~= Seq::<Seq<char>>::empty());
        assert(out@ =~= mark_text(state.high_water()) + seq!['\n'] + render_keys(
            state.seen_keys().take(0),
        ));
    }
    let total = state.key_count();
    let mut i: usize = 0;
    while i < total
        invariant
            i <= total,
            total == state.seen_keys().len(),
            out@ == mark_text(state.high_water()) + seq!['\n'] + render_keys(
                state.seen_keys().take(i as int),
            ),
        decreases total - i,
    {
        let k = state.key_at(i);
        let kv = chars_of(k.as_str());
        let mut ev = escape_key(&kv);
        let ghost pre = out@;
        out.append(&mut ev);
        out.push('\n');
        proof {
            let keys = state.seen_keys();
            lemma_render_keys_push(keys.take(i as int), keys[i as int]);
            assert(keys.take(i as int + 1) =~= keys.take(i as int).push(keys[i as int]));
            assert(out@ =~= pre + esc(keys[i as int]) + seq!['\n']);
            assert(pre + esc(keys[i as int]) + seq!['\n'] =~= mark_text(state.high_water())
                + seq!['\n'] + (render_keys(keys.take(i as int)) + esc(keys[i as int])
                + seq!['\n']));
        }
        i = i + 1;
    }
    proof {
        assert(state.seen_keys().take(total as int) =~= state.seen_keys());
    }
    string_of(&out)
}

/// Whether the line is exactly "none".
fn is_none_line(cur: &Vec<char>) -> (r: bool)
    ensures
        r == (cur@ == seq!['n', 'o', 'n', 'e']),
{
    let ghost none_line = seq!['n', 'o', 'n', 'e'];
    if cur.len() != 4 {
        proof {
            assert(cur@ != none_line) by {
                if cur@ == none_line {
                    assert(cur@.len() == 4);
                }
            }
        }
        return false;
    }
    let ok = cur[0] == 'n' && cur[1] == 'o' && cur[2] == 'n' && cur[3] == 'e';
    proof {
        if ok {
            assert(cur@ =~= none_line);
        } else {
            assert(cur@ != none_line) by {
                if cur@ == none_line {
                    assert(cur@[0] == 'n');
                    assert(cur@[1] == 'o');
                    assert(cur@[2] == 'n');
                    assert(cur@[3] == 'e');
                }
            }
        }
    }
    ok
}

/// Whether no key occurs twice.
fn all_distinct(keys: &Vec<String>) -> (r: bool)
    ensures
        r == distinct_keys(key_views(keys@)),
{
    let n = keys.len();
    proof {
        assert(key_views(keys@).len() == keys@.len());
    }
    let mut a: usize = 1;
    while a < n
        invariant
            1 <= a || n == 0,
            a <= n || n == 0,
            n == keys@.len(),
            forall|x: int, y: int|
                0 <= x < y < a ==> #[trigger] key_views(keys@)[x] != #[trigger] key_views(
                    keys@,
                )[y],
        decreases n - a,
    {
        let mut b: usize = 0;
        while b < a
            invariant
                b <= a,
                a < n,
                n == keys@.len(),
                forall|x: int| 0 <= x < b ==> #[trigger] key_views(keys@)[x] != key_views(
                    keys@,
                )[a as int],
            decreases a - b,
        {
            proof {
                assert(key_views(keys@)[b as int] == keys@[b as int]@);
                assert(key_views(keys@)[a as int] == keys@[a as int]@);
            }
            if keys[b] == keys[a] {
                proof {
                    assert(key_views(keys@)[b as int] == key_views(keys@)[a as int]);
                    assert(!distinct_keys(key_views(keys@)));
                }
                return false;
            }
            b = b + 1;
        }
        proof {
            assert forall|x: int, y: int|
                0 <= x < y < a + 1 implies #[trigger] key_views(keys@)[x]
                != #[trigger] key_views(keys@)[y] by {
                if y < a {
                } else {
                    assert(key_views(keys@)[x] != key_views(keys@)[a as int]);
                }
            }
        }
        a = a + 1;
    }
    true
}

/// The deduplication state a stored record denotes. A malformed record and a
/// record holding the same key twice are corrupt: each is reported as its
/// own error, never silently discarded.
pub fn load_state(text: &str) -> (r: Result<DedupState, LoadError>)
    ensures
        match r {
            Result::Ok(s) => s.wf() && parse_state(text@) == Option::Some(
                (s.seen_keys(), s.high_water()),
            ),
            Result::Err(e) => match e {
                LoadError::Malformed => parse_state(text@) is None,
                LoadError::DuplicateKey => parse_state(text@) matches Option::Some(p)
                    && !distinct_keys(p.0),
            },
        },
{
    let v = chars_of(text);
    let n = v.len();
    let mut cur: Vec<char> = Vec::new();
    let mut i: usize = 0;
    proof {
        assert(v@.skip(0) =~= v@);
    }
    while i < n && v[i] != '\n'
        invariant
            i <= n,
            n == v@.len(),
            v@ == text@,
            parse_state(text@) == parse_state_acc(v@.skip(i as int), cur@),
            i < n ==> v@[i as int] == v@.skip(i as int)[0],
        decreases n - i,
    {
        let ghost rest = v@.skip(i as int);
        proof {
            assert(rest[0] == v@[i as int]);
            assert(rest.drop_first() =~= v@.skip(i as int + 1));
        }
        cur.push(v[i]);
        i = i + 1;
        proof {
            if i < n {
                assert(v@[i as int] == v@.skip(i as int)[0]);
            }
        }
    }
    if i == n {
        proof {
            assert(v@.skip(n as int) =~= Seq::<char>::empty());
            assert(parse_state(text@) is None);
        }
        return Result::Err(LoadError::Malformed);
    }
    let ghost rest = v@.skip(i as int);
    proof {
        assert(rest[0] == '\n');
        assert(rest.drop_first() =~= v@.skip(i as int + 1));
    }
    let mark: Option<u64>;
    if is_none_line(&cur) {
        mark = Option::None;
        proof {
            assert(parse_mark(cur@) == Option::Some(Option::None::<u64>));
        }
    } else {
        match parse_u64(&cur) {
            Option::None => {
                proof {
                    assert(parse_mark(cur@) is None);
                    assert(parse_state(text@) is None);
                }
                return Result::Err(LoadError::Malformed);
            },
            Option::Some(x) => {
                mark = Option::Some(x);
                proof {
                    assert(parse_mark(cur@) == Option::Some(Option::Some(x)));
                }
            },
        }
    }
    i = i + 1;
    let mut keys: Vec<String> = Vec::new();
    cur = Vec::new();
    proof {
        assert(key_views(keys@) =~= Seq::<Seq<char>>::empty());
        match parse_keys_acc(v@.skip(i as int), cur@) {
            Option::None => {
            },
            Option::Some(ks) => {
                assert(key_views(keys@) + ks =~= ks);
            },
        }
    }
    while i < n
        invariant
            i <= n,
            n == v@.len(),
            v@ == text@,
            parse_state(text@) == match parse_keys_acc(v@.skip(i as int), cur@) {
                Option::None => Option::None::<(Seq<Seq<char>>, Option<u64>)>,
                Option::Some(ks) => Option::Some((key_views(keys@) + ks, mark)),
            },
        decreases n - i,
    {
        let ghost krest = v@.skip(i as int);
        proof {
            assert(krest[0] == v@[i as int]);
            assert(krest.drop_first() =~= v@.skip(i as int + 1));
        }
        let c = v[i];
        if c == '\n' {
            match unescape_key(&cur) {
                Option::None => {
                    proof {
                        assert(parse_keys_acc(krest, cur@) is None);
                        assert(parse_state(text@) is None);
                    }
                    return Result::Err(LoadError::Malformed);
                },
                Option::Some(kv) => {
                    let kstr = string_of(&kv);
                    let ghost pre_keys = keys@;
                    keys.push(kstr);
                    cur = Vec::new();
                    proof {
                        assert(key_views(keys@) =~= key_views(pre_keys).push(kv@));
                        match parse_keys_acc(v@.skip(i as int + 1), Seq::<char>::empty()) {
                            Option::None => {
                            },
                            Option::Some(ks) => {
                                assert(key_views(pre_keys) + (seq![kv@] + ks) =~= key_views(keys@)
                                    + ks);
                            },
                        }
                    }
                },
            }
            i = i + 1;
        } else {
            cur.push(c);
            i = i + 1;
        }
    }
    proof {
        assert(v@.skip(n as int) =~= Seq::<char>::empty());
    }
    if cur.len() > 0 {
        proof {
            assert(parse_state(text@) is None);
        }
        return Result::Err(LoadError::Malformed);
    }
    proof {
        assert(key_views(keys@) + Seq::<Seq<char>>::empty() =~= key_views(keys@));
        assert(parse_state(text@) == Option::Some((key_views(keys@), mark)));
    }
    if !all_distinct(&keys) {
        return Result::Err(LoadError::DuplicateKey);
    }
    let s = DedupState::from_parts(keys, mark);
    Result::Ok(s)
}

} // verus!
