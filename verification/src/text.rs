use vstd::prelude::*;
use unicode_normalization::UnicodeNormalization;

verus! {

// ---------------------------------------------------------------------------
// Whitespace
// ---------------------------------------------------------------------------

/// The Unicode `White_Space` code points: the set that `char::is_whitespace`
/// tests, and the separators that the normalizer collapses.
pub open spec fn is_white(c: char) -> bool {
    let u = c as u32;
    ||| (0x09 <= u && u <= 0x0D)
    ||| u == 0x20
    ||| u == 0x85
    ||| u == 0xA0
    ||| u == 0x1680
    ||| (0x2000 <= u && u <= 0x200A)
    ||| u == 0x2028
    ||| u == 0x2029
    ||| u == 0x202F
    ||| u == 0x205F
    ||| u == 0x3000
}

/// Executable test for `is_white`.
pub fn char_is_white(c: char) -> (r: bool)
    ensures
        r == is_white(c),
{
    let u = c as u32;
    (0x09 <= u && u <= 0x0D) || u == 0x20 || u == 0x85 || u == 0xA0 || u == 0x1680 || (0x2000 <= u
        && u <= 0x200A) || u == 0x2028 || u == 0x2029 || u == 0x202F || u == 0x205F || u == 0x3000
}

// ---------------------------------------------------------------------------
// Names for the outside case-folding and composition steps
// ---------------------------------------------------------------------------

/// The Unicode lowercase form of a string, as `str::to_lowercase` computes it.
pub uninterp spec fn lower_of(s: Seq<char>) -> Seq<char>;

/// The canonical composition (NFC) of a string, as `UnicodeNormalization::nfc`
/// computes it.
pub uninterp spec fn nfc_of(s: Seq<char>) -> Seq<char>;

/// Relies on `str::to_lowercase`: the result is the Unicode lowercase mapping
/// of the input, a function of the input characters alone. Lowercase is the
/// Unicode derived core property of that name, and characters with the
/// property map to themselves, so the mapping is idempotent: the result comes
/// back unchanged when lowercased again.
#[verifier::external_body]
fn fold_lower(s: &str) -> (r: String)
    ensures
        r@ == lower_of(s@),
        lower_of(r@) == r@,
{
    s.to_lowercase()
}

/// Relies on `UnicodeNormalization::nfc` (UAX #15): the result is the Unicode
/// canonical composition (NFC) of the input, a function of the input
/// characters alone, and normalization is idempotent. Whitespace collapsing
/// keeps a single U+0020 SPACE between the whitespace-free runs and removes
/// characters at the ends, so it never makes two non-space characters newly
/// adjacent; SPACE has no case mapping and no canonical composition with any
/// mark. A collapsed NFC string is therefore still NFC, and still lowercase
/// whenever the composed string was the composition of a lowercase string.
#[verifier::external_body]
fn compose_nfc(s: &str) -> (r: String)
    ensures
        r@ == nfc_of(s@),
        nfc_of(collapse_white(r@)) == collapse_white(r@),
        lower_of(s@) == s@ ==> lower_of(collapse_white(r@)) == collapse_white(r@),
{
    s.nfc().collect()
}

/// Relies on `String::push`: appends the given character to the end.
#[verifier::external_body]
fn push_char(s: &mut String, c: char)
    ensures
        final(s)@ == old(s)@.push(c),
{
    s.push(c)
}

// ---------------------------------------------------------------------------
// Character vectors and strings
// ---------------------------------------------------------------------------

/// The characters of a string slice, in order.
pub fn chars_of(s: &str) -> (r: Vec<char>)
    ensures
        r@ == s@,
{
    let n = s.unicode_len();
    let mut r: Vec<char> = Vec::new();
    let mut i: usize = 0;
    while i < n
        invariant
            i <= n,
            n == s@.len(),
            r@ == s@.take(i as int),
        decreases n - i,
    {
        let c = s.get_char(i);
        r.push(c);
        assert(s@.take(i + 1 as int) == s@.take(i as int).push(s@[i as int]));
        i = i + 1;
    }
    assert(s@.take(n as int) == s@);
    r
}

/// A string holding exactly the given characters, in order.
pub fn string_of(v: &Vec<char>) -> (r: String)
    ensures
        r@ == v@,
{
    let mut r = String::new();
    let mut i: usize = 0;
    while i < v.len()
        invariant
            i <= v@.len(),
            r@ == v@.take(i as int),
        decreases v@.len() - i,
    {
        push_char(&mut r, v[i]);
        assert(v@.take(i + 1 as int) == v@.take(i as int).push(v@[i as int]));
        i = i + 1;
    }
    assert(v@.take(v@.len() as int) == v@);
    r
}

// ---------------------------------------------------------------------------
// Whitespace collapsing
// ---------------------------------------------------------------------------

/// The maximal whitespace-free runs of `s`, in order, with `cur` the run read
/// so far.
pub open spec fn tokens_acc(s: Seq<char>, cur: Seq<char>) -> Seq<Seq<char>>
    decreases s.len(),
{
    if s.len() == 0 {
        if cur.len() == 0 {
            Seq::empty()
        } else {
            seq![cur]
        }
    } else if is_white(s[0]) {
        if cur.len() == 0 {
            tokens_acc(s.drop_first(), Seq::empty())
        } else {
            seq![cur] + tokens_acc(s.drop_first(), Seq::empty())
        }
    } else {
        tokens_acc(s.drop_first(), cur.push(s[0]))
    }
}

/// The maximal whitespace-free runs (words) of `s`, in order.
pub open spec fn tokens_of(s: Seq<char>) -> Seq<Seq<char>> {
    tokens_acc(s, Seq::empty())
}

/// The given runs joined by single spaces.
pub open spec fn join_tokens(ts: Seq<Seq<char>>) -> Seq<char>
    decreases ts.len(),
{
    if ts.len() == 0 {
        Seq::empty()
    } else if ts.len() == 1 {
        ts[0]
    } else {
        ts[0] + seq![' '] + join_tokens(ts.drop_first())
    }
}

/// `s` with leading and trailing whitespace removed and every inner whitespace
/// run replaced by a single space.
pub open spec fn collapse_white(s: Seq<char>) -> Seq<char> {
    join_tokens(tokens_of(s))
}

/// The canonical comparison key of a message text: lowercase fold, then
/// canonical composition, then whitespace collapsing.
pub open spec fn norm_spec(s: Seq<char>) -> Seq<char> {
    collapse_white(nfc_of(lower_of(s)))
}

/// The views of a vector of character vectors.
pub open spec fn views_of(ts: Seq<Vec<char>>) -> Seq<Seq<char>> {
    ts.map_values(|t: Vec<char>| t@)
}

// ---------------------------------------------------------------------------
// Lemmas about tokens and joining
// ---------------------------------------------------------------------------

/// Every token is a nonempty run of non-whitespace characters, provided the
/// run read so far holds no whitespace.
pub proof fn lemma_tokens_acc_wf(s: Seq<char>, cur: Seq<char>)
    requires
        forall|i: int| 0 <= i < cur.len() ==> !is_white(#[trigger] cur[i]),
    ensures
        forall|t: int|
            0 <= t < tokens_acc(s, cur).len() ==> (#[trigger] tokens_acc(s, cur)[t]).len() > 0,
        forall|t: int, i: int|
            0 <= t < tokens_acc(s, cur).len() && 0 <= i < tokens_acc(s, cur)[t].len() ==> !is_white(
                #[trigger] tokens_acc(s, cur)[t][i],
            ),
    decreases s.len(),
{
    let res = tokens_acc(s, cur);
    if s.len() == 0 {
        if cur.len() > 0 {
            assert forall|t: int| 0 <= t < res.len() implies (#[trigger] res[t]).len() > 0 by {
                assert(res[t] == cur);
            }
            assert forall|t: int, i: int|
                0 <= t < res.len() && 0 <= i < res[t].len() implies !is_white(
                #[trigger] res[t][i],
            ) by {
                assert(res[t] == cur);
            }
        }
    } else if is_white(s[0]) {
        lemma_tokens_acc_wf(s.drop_first(), Seq::empty());
        let rec = tokens_acc(s.drop_first(), Seq::<char>::empty());
        if cur.len() == 0 {
            assert(res == rec);
        } else {
            assert(res == seq![cur] + rec);
            assert forall|t: int| 0 <= t < res.len() implies (#[trigger] res[t]).len() > 0 by {
                if t == 0 {
                    assert(res[t] == cur);
                } else {
                    assert(res[t] == rec[t - 1]);
                }
            }
            assert forall|t: int, i: int|
                0 <= t < res.len() && 0 <= i < res[t].len() implies !is_white(
                #[trigger] res[t][i],
            ) by {
                if t == 0 {
                    assert(res[t] == cur);
                } else {
                    assert(res[t] == rec[t - 1]);
                }
            }
        }
    } else {
        let cur2 = cur.push(s[0]);
        assert forall|i: int| 0 <= i < cur2.len() implies !is_white(#[trigger] cur2[i]) by {
            if i < cur.len() {
                assert(cur2[i] == cur[i]);
            } else {
                assert(cur2[i] == s[0]);
            }
        }
        lemma_tokens_acc_wf(s.drop_first(), cur2);
        assert(res == tokens_acc(s.drop_first(), cur2));
    }
}

/// Reading a whitespace-free run accumulates it onto the current token.
pub proof fn lemma_tokens_acc_shift(t: Seq<char>, rest: Seq<char>, cur: Seq<char>)
    requires
        forall|i: int| 0 <= i < t.len() ==> !is_white(#[trigger] t[i]),
    ensures
        tokens_acc(t + rest, cur) == tokens_acc(rest, cur + t),
    decreases t.len(),
{
    if t.len() == 0 {
        assert(t + rest =~= rest);
        assert(cur + t =~= cur);
    } else {
        assert((t + rest)[0] == t[0]);
        assert((t + rest).drop_first() =~= t.drop_first() + rest);
        lemma_tokens_acc_shift(t.drop_first(), rest, cur.push(t[0]));
        assert(cur.push(t[0]) + t.drop_first() =~= cur + t);
    }
}

/// Splitting the join of nonempty whitespace-free runs gives back those runs.
pub proof fn lemma_tokens_join(ts: Seq<Seq<char>>)
    requires
        forall|t: int| 0 <= t < ts.len() ==> (#[trigger] ts[t]).len() > 0,
        forall|t: int, i: int|
            0 <= t < ts.len() && 0 <= i < ts[t].len() ==> !is_white(#[trigger] ts[t][i]),
    ensures
        tokens_of(join_tokens(ts)) == ts,
    decreases ts.len(),
{
    if ts.len() == 0 {
    } else if ts.len() == 1 {
        lemma_tokens_acc_shift(ts[0], Seq::empty(), Seq::empty());
        assert(ts[0] + Seq::<char>::empty() =~= ts[0]);
        assert(Seq::<char>::empty() + ts[0] =~= ts[0]);
        assert(seq![ts[0]] =~= ts);
    } else {
        let rest = ts.drop_first();
        let j = join_tokens(rest);
        assert(join_tokens(ts) =~= ts[0] + (seq![' '] + j));
        lemma_tokens_acc_shift(ts[0], seq![' '] + j, Seq::empty());
        assert(Seq::<char>::empty() + ts[0] =~= ts[0]);
        assert((seq![' '] + j)[0] == ' ');
        assert(is_white(' '));
        assert((seq![' '] + j).drop_first() =~= j);
        assert(forall|t: int| 0 <= t < rest.len() ==> rest[t] == ts[t + 1]);
        lemma_tokens_join(rest);
        assert(tokens_of(join_tokens(ts)) =~= seq![ts[0]] + rest);
        assert(seq![ts[0]] + rest =~= ts);
    }
}

/// Collapsing whitespace is idempotent.
pub proof fn lemma_collapse_idempotent(s: Seq<char>)
    ensures
        collapse_white(collapse_white(s)) == collapse_white(s),
{
    lemma_tokens_acc_wf(s, Seq::empty());
    lemma_tokens_join(tokens_of(s));
}

/// Two texts whose canonical (lowercased, composed) forms carry the same
/// whitespace-separated words normalize to the same key: differences of case,
/// of Unicode composition, and of whitespace placement alone never tell two
/// messages apart.
pub proof fn lemma_normalize_agrees(m1: Seq<char>, m2: Seq<char>)
    requires
        tokens_of(nfc_of(lower_of(m1))) == tokens_of(nfc_of(lower_of(m2))),
    ensures
        norm_spec(m1) == norm_spec(m2),
{
}

/// Appending one more run to a join appends a separator and the run.
pub proof fn lemma_join_push(ts: Seq<Seq<char>>, t: Seq<char>)
    ensures
        join_tokens(ts.push(t)) == if ts.len() == 0 {
            t
        } else {
            join_tokens(ts) + seq![' '] + t
        },
    decreases ts.len(),
{
    if ts.len() == 0 {
        assert(ts.push(t)[0] =~= t);
    } else if ts.len() == 1 {
        assert(ts.push(t)[0] == ts[0]);
        assert(ts.push(t).drop_first() =~= seq![t]);
        assert(join_tokens(seq![t]) == t);
    } else {
        assert(ts.push(t)[0] == ts[0]);
        assert(ts.push(t).drop_first() =~= ts.drop_first().push(t));
        lemma_join_push(ts.drop_first(), t);
        assert(ts[0] + seq![' '] + (join_tokens(ts.drop_first()) + seq![' '] + t) =~= (ts[0]
            + seq![' '] + join_tokens(ts.drop_first())) + seq![' '] + t);
    }
}

// ---------------------------------------------------------------------------
// Executable collapsing and the normalizer
// ---------------------------------------------------------------------------

/// The whitespace-separated words of the given characters.
pub fn split_tokens(v: &Vec<char>) -> (toks: Vec<Vec<char>>)
    ensures
        views_of(toks@) == tokens_of(v@),
{
    let mut toks: Vec<Vec<char>> = Vec::new();
    let mut cur: Vec<char> = Vec::new();
    let mut i: usize = 0;
    proof {
        assert(v@.skip(0) =~= v@);
        assert(views_of(toks@) =~= Seq::<Seq<char>>::empty());
        assert(views_of(toks@) + tokens_acc(v@, Seq::<char>::empty()) =~= tokens_of(v@));
    }
    while i < v.len()
        invariant
            i <= v@.len(),
            tokens_of(v@) == views_of(toks@) + tokens_acc(v@.skip(i as int), cur@),
        decreases v@.len() - i,
    {
        let ghost pre_toks = toks@;
        let ghost pre_cur = cur@;
        let ghost rest = v@.skip(i as int);
        proof {
            assert(rest[0] == v@[i as int]);
            assert(rest.drop_first() =~= v@.skip(i as int + 1));
        }
        let c = v[i];
        if char_is_white(c) {
            if cur.len() > 0 {
                toks.push(cur);
                cur = Vec::new();
                proof {
                    assert(views_of(toks@) =~= views_of(pre_toks).push(pre_cur));
                    assert(tokens_acc(rest, pre_cur) == seq![pre_cur] + tokens_acc(
                        rest.drop_first(),
                        Seq::<char>::empty(),
                    ));
                    assert(views_of(pre_toks) + (seq![pre_cur] + tokens_acc(
                        v@.skip(i as int + 1),
                        cur@,
                    )) =~= views_of(toks@) + tokens_acc(v@.skip(i as int + 1), cur@));
                }
            } else {
                proof {
                    assert(pre_cur =~= Seq::<char>::empty());
                    assert(tokens_acc(rest, pre_cur) == tokens_acc(
                        rest.drop_first(),
                        Seq::<char>::empty(),
                    ));
                }
            }
        } else {
            cur.push(c);
            proof {
                assert(cur@ == pre_cur.push(rest[0]));
                assert(tokens_acc(rest, pre_cur) == tokens_acc(
                    rest.drop_first(),
                    pre_cur.push(rest[0]),
                ));
            }
        }
        i = i + 1;
    }
    proof {
        assert(v@.skip(v@.len() as int) =~= Seq::<char>::empty());
    }
    if cur.len() > 0 {
        let ghost pre_toks = toks@;
        let ghost pre_cur = cur@;
        toks.push(cur);
        proof {
            assert(views_of(toks@) =~= views_of(pre_toks).push(pre_cur));
            assert(tokens_acc(Seq::<char>::empty(), pre_cur) == seq![pre_cur]);
            assert(views_of(pre_toks) + seq![pre_cur] =~= views_of(toks@));
        }
    } else {
        proof {
            assert(tokens_acc(Seq::<char>::empty(), cur@) =~= Seq::<Seq<char>>::empty());
            assert(views_of(toks@) + Seq::<Seq<char>>::empty() =~= views_of(toks@));
        }
    }
    toks
}

/// The given words joined by single spaces.
pub fn join_words(toks: &Vec<Vec<char>>) -> (out: Vec<char>)
    ensures
        out@ == join_tokens(views_of(toks@)),
{
    let mut out: Vec<char> = Vec::new();
    let mut k: usize = 0;
    while k < toks.len()
        invariant
            k <= toks@.len(),
            out@ == join_tokens(views_of(toks@).take(k as int)),
        decreases toks@.len() - k,
    {
        proof {
            lemma_join_push(views_of(toks@).take(k as int), toks@[k as int]@);
            assert(views_of(toks@).take(k + 1 as int) =~= views_of(toks@).take(k as int).push(
                toks@[k as int]@,
            ));
        }
        if k > 0 {
            out.push(' ');
        }
        let tok = &toks[k];
        let mut j: usize = 0;
        let ghost base = out@;
        while j < tok.len()
            invariant
                j <= tok@.len(),
                out@ == base + tok@.take(j as int),
            decreases tok@.len() - j,
        {
            out.push(tok[j]);
            assert(tok@.take(j + 1 as int) =~= tok@.take(j as int).push(tok@[j as int]));
            j = j + 1;
        }
        proof {
            assert(tok@.take(tok@.len() as int) =~= tok@);
            if k == 0 {
                assert(base =~= Seq::<char>::empty());
                assert(out@ =~= tok@);
            } else {
                assert(out@ =~= join_tokens(views_of(toks@).take(k as int)) + seq![' '] + tok@);
            }
        }
        k = k + 1;
    }
    proof {
        assert(views_of(toks@).take(toks@.len() as int) =~= views_of(toks@));
    }
    out
}

/// The canonical comparison key of a message text: the lowercase fold, the
/// Unicode canonical composition, and whitespace collapsing, in that order.
/// The result is itself normalized: normalizing an already-normalized key
/// returns the same key. Empty and all-whitespace texts normalize to the
/// empty key, a valid key like any other, so repeated empty messages count
/// as duplicates of one another.
pub fn normalize(text: &str) -> (key: String)
    ensures
        key@ == norm_spec(text@),
        norm_spec(key@) == key@,
{
    let low = fold_lower(text);
    let can = compose_nfc(low.as_str());
    let cv = chars_of(can.as_str());
    let toks = split_tokens(&cv);
    let out = join_words(&toks);
    let key = string_of(&out);
    proof {
        lemma_collapse_idempotent(can@);
    }
    key
}

} // verus!
