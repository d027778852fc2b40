//! Text utilities: lexicographic ordering on strings (used for the
//! deterministic tie-break when sorting aggregate entries), decimal
//! rendering and whitespace-separated integer parsing for the flat text
//! artifacts exchanged with the external community-detection tool.
use crate::error::Error;
use vstd::prelude::*;
use vstd::string::{StrSliceExecFns, StringExecFns};

verus! {

/// Strict lexicographic order on character sequences, by code point; a
/// proper prefix comes first.
pub open spec fn str_lt(a: Seq<char>, b: Seq<char>) -> bool
    decreases a.len(),
{
    if b.len() == 0 {
        false
    } else if a.len() == 0 {
        true
    } else if a[0] == b[0] {
        str_lt(a.skip(1), b.skip(1))
    } else {
        (a[0] as int) < (b[0] as int)
    }
}

pub proof fn lemma_str_lt_common_prefix(a: Seq<char>, b: Seq<char>, i: int)
    requires
        0 <= i <= a.len(),
        i <= b.len(),
        forall|x: int| 0 <= x < i ==> a[x] == b[x],
    ensures
        str_lt(a, b) == str_lt(a.skip(i), b.skip(i)),
    decreases i,
{
    if i > 0 {
        assert(a[0] == b[0]);
        assert forall|x: int| 0 <= x < i - 1 implies a.skip(1)[x] == b.skip(1)[x] by {
            assert(a.skip(1)[x] == a[x + 1]);
            assert(b.skip(1)[x] == b[x + 1]);
        }
        lemma_str_lt_common_prefix(a.skip(1), b.skip(1), i - 1);
        assert(a.skip(1).skip(i - 1) =~= a.skip(i));
        assert(b.skip(1).skip(i - 1) =~= b.skip(i));
    } else {
        assert(a.skip(0) =~= a);
        assert(b.skip(0) =~= b);
    }
}

/// The order is transitive.
pub proof fn lemma_str_lt_trans(a: Seq<char>, b: Seq<char>, c: Seq<char>)
    requires
        str_lt(a, b),
        str_lt(b, c),
    ensures
        str_lt(a, c),
    decreases a.len(),
{
    if a.len() == 0 {
    } else {
        assert(b.len() > 0 && c.len() > 0);
        if a[0] == b[0] {
            if b[0] == c[0] {
                lemma_str_lt_trans(a.skip(1), b.skip(1), c.skip(1));
            }
        }
    }
}

/// The order is connex: two strings compare one way or the other, or are
/// equal.
pub proof fn lemma_str_lt_connex(a: Seq<char>, b: Seq<char>)
    ensures
        str_lt(a, b) || str_lt(b, a) || a == b,
    decreases a.len(),
{
    if a.len() == 0 {
        if b.len() == 0 {
            assert(a =~= b);
        }
    } else if b.len() == 0 {
    } else if a[0] != b[0] {
        assert((a[0] as int) != (b[0] as int));
    } else {
        lemma_str_lt_connex(a.skip(1), b.skip(1));
        if !str_lt(a.skip(1), b.skip(1)) && !str_lt(b.skip(1), a.skip(1)) {
            assert(a.skip(1) == b.skip(1));
            assert forall|x: int| 0 <= x < a.len() implies a[x] == b[x] by {
                if x > 0 {
                    assert(a[x] == a.skip(1)[x - 1]);
                    assert(b[x] == b.skip(1)[x - 1]);
                }
            }
            assert(a =~= b);
        }
    }
}

/// The order is irreflexive and asymmetric.
pub proof fn lemma_str_lt_asymmetric(a: Seq<char>, b: Seq<char>)
    requires
        str_lt(a, b),
    ensures
        !str_lt(b, a),
        a != b,
    decreases a.len(),
{
    if a.len() != 0 && b.len() != 0 && a[0] == b[0] {
        lemma_str_lt_asymmetric(a.skip(1), b.skip(1));
        if a == b {
            assert(a.skip(1) =~= b.skip(1));
        }
    }
}

/// Whether `a` comes strictly before `b` in lexicographic order.
pub fn string_lt(a: &str, b: &str) -> (r: bool)
    ensures
        r == str_lt(a@, b@),
{
    let la = a.unicode_len();
    let lb = b.unicode_len();
    let mut i: usize = 0;
    while i < la && i < lb
        invariant
            la == a@.len(),
            lb == b@.len(),
            i <= la,
            i <= lb,
            forall|x: int| 0 <= x < i ==> a@[x] == b@[x],
        decreases la - i,
    {
        let ca = a.get_char(i);
        let cb = b.get_char(i);
        if ca != cb {
            proof {
                lemma_str_lt_common_prefix(a@, b@, i as int);
                assert(a@.skip(i as int)[0] == a@[i as int]);
                assert(b@.skip(i as int)[0] == b@[i as int]);
            }
            return (ca as u32) < (cb as u32);
        }
        i = i + 1;
    }
    proof {
        lemma_str_lt_common_prefix(a@, b@, if la < lb {
            la as int
        } else {
            lb as int
        });
    }
    la < lb
}


// ---- decimal numbers ----

/// The character of one decimal digit.
pub open spec fn digit_char(d: nat) -> char {
    if d == 0 {
        '0'
    } else if d == 1 {
        '1'
    } else if d == 2 {
        '2'
    } else if d == 3 {
        '3'
    } else if d == 4 {
        '4'
    } else if d == 5 {
        '5'
    } else if d == 6 {
        '6'
    } else if d == 7 {
        '7'
    } else if d == 8 {
        '8'
    } else {
        '9'
    }
}

/// The decimal digits of `n`, most significant first, no leading zeros
/// (a single `'0'` for zero).
pub open spec fn dec_digits(n: nat) -> Seq<char>
    decreases n,
{
    if n < 10 {
        seq![digit_char(n)]
    } else {
        dec_digits(n / 10).push(digit_char(n % 10))
    }
}

/// Decimal digit characters.
pub open spec fn is_digit(c: char) -> bool {
    48 <= (c as int) && (c as int) <= 57
}

/// Numeric value of a digit character.
pub open spec fn digit_val(c: char) -> nat {
    ((c as int) - 48) as nat
}

pub open spec fn all_digits(s: Seq<char>) -> bool {
    forall|i: int| 0 <= i < s.len() ==> is_digit(#[trigger] s[i])
}

/// Value of a digit string, most significant digit first.
pub open spec fn digits_val(s: Seq<char>) -> nat
    decreases s.len(),
{
    if s.len() == 0 {
        0
    } else {
        digits_val(s.drop_last()) * 10 + digit_val(s.last())
    }
}

/// Rendering a number gives digits only, at least one of them, and
/// parsing them gives the number back.
pub proof fn lemma_dec_digits(n: nat)
    ensures
        dec_digits(n).len() >= 1,
        all_digits(dec_digits(n)),
        digits_val(dec_digits(n)) == n,
    decreases n,
{
    if n < 10 {
        let d0 = dec_digits(n);
        assert(d0 =~= seq![digit_char(n)]);
        assert(d0.len() == 1);
        assert(d0.drop_last() =~= Seq::<char>::empty());
        assert(digits_val(d0.drop_last()) == 0);
        assert(d0.last() == digit_char(n));
        assert(digits_val(d0) == digits_val(d0.drop_last()) * 10 + digit_val(d0.last()));
        assert(digit_val(digit_char(n)) == n);
    } else {
        lemma_dec_digits(n / 10);
        let d = dec_digits(n);
        assert(d.drop_last() =~= dec_digits(n / 10));
        assert(d.last() == digit_char(n % 10));
        assert(n % 10 < 10);
        assert(digit_val(digit_char(n % 10)) == n % 10);
        assert(n / 10 * 10 + n % 10 == n) by {
            vstd::arithmetic::div_mod::lemma_fundamental_div_mod(n as int, 10);
        }
        assert forall|i: int| 0 <= i < d.len() implies is_digit(#[trigger] d[i]) by {
            if i < d.len() - 1 {
                assert(d[i] == dec_digits(n / 10)[i]);
            }
        }
    }
}

/// The string of one digit.
fn digit_str(d: usize) -> (r: &'static str)
    requires
        d < 10,
    ensures
        r@ =~= seq![digit_char(d as nat)],
{
    proof {
        reveal_strlit("0");
        reveal_strlit("1");
        reveal_strlit("2");
        reveal_strlit("3");
        reveal_strlit("4");
        reveal_strlit("5");
        reveal_strlit("6");
        reveal_strlit("7");
        reveal_strlit("8");
        reveal_strlit("9");
    }
    match d {
        0 => "0",
        1 => "1",
        2 => "2",
        3 => "3",
        4 => "4",
        5 => "5",
        6 => "6",
        7 => "7",
        8 => "8",
        _ => "9",
    }
}

/// Append the decimal rendering of `n`.
pub fn push_decimal(out: &mut String, n: usize)
    ensures
        final(out)@ == old(out)@ + dec_digits(n as nat),
    decreases n,
{
    if n < 10 {
        out.append(digit_str(n));
    } else {
        proof {
            assert(n / 10 < n) by (nonlinear_arith)
                requires
                    n >= 10,
            ;
        }
        push_decimal(out, n / 10);
        let ghost mid = out@;
        out.append(digit_str(n % 10));
        proof {
            assert(out@ =~= old(out)@ + dec_digits(n as nat));
        }
    }
}

// ---- whitespace-separated tokens ----

/// The whitespace that separates records in the flat text artifacts.
pub open spec fn is_ws(c: char) -> bool {
    c == ' ' || c == '\n' || c == '\t' || c == '\r'
}

/// Length of the token at the head of `s`: the run of non-whitespace
/// characters before the first separator.
pub open spec fn token_len(s: Seq<char>) -> nat
    decreases s.len(),
{
    if s.len() == 0 || is_ws(s[0]) {
        0
    } else {
        1 + token_len(s.skip(1))
    }
}

/// The whitespace-separated tokens of `s`, in order.
pub open spec fn spec_tokens(s: Seq<char>) -> Seq<Seq<char>>
    decreases s.len(),
    via spec_tokens_decreases
{
    if s.len() == 0 {
        Seq::empty()
    } else if is_ws(s[0]) {
        spec_tokens(s.skip(1))
    } else {
        seq![s.take(token_len(s) as int)] + spec_tokens(s.skip(token_len(s) as int))
    }
}

#[via_fn]
proof fn spec_tokens_decreases(s: Seq<char>) {
    if s.len() > 0 && !is_ws(s[0]) {
        assert(token_len(s) >= 1);
        lemma_token_len_bound(s);
    }
}

proof fn lemma_token_len_bound(s: Seq<char>)
    ensures
        token_len(s) <= s.len(),
        forall|x: int| 0 <= x < token_len(s) ==> !is_ws(#[trigger] s[x]),
        token_len(s) < s.len() ==> is_ws(s[token_len(s) as int]),
    decreases s.len(),
{
    if s.len() > 0 && !is_ws(s[0]) {
        lemma_token_len_bound(s.skip(1));
        assert forall|x: int| 0 <= x < token_len(s) implies !is_ws(#[trigger] s[x]) by {
            if x > 0 {
                assert(s[x] == s.skip(1)[x - 1]);
            }
        }
        if token_len(s) < s.len() {
            assert(s[token_len(s) as int] == s.skip(1)[token_len(s.skip(1)) as int]);
        }
    }
}

/// A token's length is wholly determined by where the first separator or
/// the end lies.
proof fn lemma_token_len_exact(s: Seq<char>, k: int)
    requires
        0 <= k <= s.len(),
        forall|x: int| 0 <= x < k ==> !is_ws(#[trigger] s[x]),
        k == s.len() || is_ws(s[k]),
    ensures
        token_len(s) == k,
    decreases k,
{
    if k == 0 {
    } else {
        assert(!is_ws(s[0]));
        assert forall|x: int| 0 <= x < k - 1 implies !is_ws(#[trigger] s.skip(1)[x]) by {
            assert(s.skip(1)[x] == s[x + 1]);
        }
        if k < s.len() {
            assert(s.skip(1)[k - 1] == s[k]);
        }
        lemma_token_len_exact(s.skip(1), k - 1);
    }
}

/// Tokens distribute over concatenation at a whitespace boundary.
pub proof fn lemma_tokens_append(a: Seq<char>, b: Seq<char>)
    requires
        b.len() > 0,
        is_ws(b[0]),
    ensures
        spec_tokens(a + b) == spec_tokens(a) + spec_tokens(b),
    decreases a.len(),
{
    let ab = a + b;
    if a.len() == 0 {
        assert(ab =~= b);
        assert(spec_tokens(a) =~= Seq::<Seq<char>>::empty());
        assert(spec_tokens(a) + spec_tokens(b) =~= spec_tokens(b));
    } else if is_ws(a[0]) {
        assert(ab[0] == a[0]);
        assert(ab.skip(1) =~= a.skip(1) + b);
        lemma_tokens_append(a.skip(1), b);
    } else {
        lemma_token_len_bound(a);
        let k = token_len(a) as int;
        assert forall|x: int| 0 <= x < k implies !is_ws(#[trigger] ab[x]) by {
            assert(ab[x] == a[x]);
        }
        if k < a.len() {
            assert(ab[k] == a[k]);
        } else {
            assert(ab[k] == b[0]);
        }
        lemma_token_len_exact(ab, k);
        assert(ab.take(k) =~= a.take(k));
        assert(ab.skip(k) =~= a.skip(k) + b);
        lemma_tokens_append(a.skip(k), b);
        assert(spec_tokens(ab) =~= seq![a.take(k)] + (spec_tokens(a.skip(k)) + spec_tokens(b)));
        assert(seq![a.take(k)] + (spec_tokens(a.skip(k)) + spec_tokens(b)) =~= (seq![a.take(k)]
            + spec_tokens(a.skip(k))) + spec_tokens(b));
    }
}

/// A nonempty all-digit string is one single token.
pub proof fn lemma_tokens_of_digits(d: Seq<char>)
    requires
        d.len() > 0,
        all_digits(d),
    ensures
        spec_tokens(d) == seq![d],
{
    assert(!is_ws(d[0]));
    assert forall|x: int| 0 <= x < d.len() implies !is_ws(#[trigger] d[x]) by {
        assert(is_digit(d[x]));
    }
    lemma_token_len_exact(d, d.len() as int);
    assert(d.take(token_len(d) as int) =~= d);
    assert(d.skip(token_len(d) as int) =~= Seq::<char>::empty());
    assert(spec_tokens(Seq::<char>::empty()) =~= Seq::<Seq<char>>::empty());
    assert(spec_tokens(d) == seq![d.take(token_len(d) as int)] + spec_tokens(
        d.skip(token_len(d) as int),
    ));
    assert(spec_tokens(d) =~= seq![d]);
}

/// All tokens are valid machine-sized numbers: every token is all digits
/// and its value fits in `usize`.
pub open spec fn tokens_valid(s: Seq<char>) -> bool {
    forall|i: int|
        0 <= i < spec_tokens(s).len() ==> all_digits(#[trigger] spec_tokens(s)[i]) && digits_val(
            spec_tokens(s)[i],
        ) <= usize::MAX
}

/// The numeric values of the tokens of `s`.
pub open spec fn token_values(s: Seq<char>) -> Seq<usize> {
    spec_tokens(s).map_values(|t: Seq<char>| digits_val(t) as usize)
}

proof fn lemma_digits_val_prefix(s: Seq<char>, k: int)
    requires
        0 <= k <= s.len(),
    ensures
        digits_val(s) >= digits_val(s.take(k)),
    decreases s.len() - k,
{
    if k < s.len() {
        lemma_digits_val_prefix(s, k + 1);
        assert(s.take(k + 1).drop_last() =~= s.take(k));
        assert(digits_val(s.take(k + 1)) == digits_val(s.take(k)) * 10 + digit_val(
            s.take(k + 1).last(),
        ));
    } else {
        assert(s.take(k) =~= s);
    }
}

/// Parse every whitespace-separated token of `s` as a machine-sized
/// decimal number. Fails with `MalformedHierarchyStream` exactly when
/// some token holds a non-digit or overflows `usize`.
pub fn parse_usize_tokens(s: &str) -> (r: Result<Vec<usize>, Error>)
    ensures
        match r {
            Ok(v) => tokens_valid(s@) && v@ == token_values(s@),
            Err(e) => e == Error::MalformedHierarchyStream && !tokens_valid(s@),
        },
{
    let len = s.unicode_len();
    let mut out: Vec<usize> = Vec::new();
    let ghost mut done: Seq<Seq<char>> = Seq::empty();
    let mut p: usize = 0;
    proof {
        assert(s@.skip(0) =~= s@);
        assert(done + spec_tokens(s@) =~= spec_tokens(s@));
    }
    while p < len
        invariant
            p <= len,
            len == s@.len(),
            spec_tokens(s@) == done + spec_tokens(s@.skip(p as int)),
            out@.len() == done.len(),
            forall|i: int|
                0 <= i < done.len() ==> all_digits(#[trigger] done[i]) && digits_val(done[i])
                    <= usize::MAX && out@[i] as nat == digits_val(done[i]),
        decreases len - p,
    {
        let c = s.get_char(p);
        if c == ' ' || c == '\n' || c == '\t' || c == '\r' {
            proof {
                assert(is_ws(s@.skip(p as int)[0]));
                assert(s@.skip(p as int).skip(1) =~= s@.skip(p as int + 1));
            }
            p = p + 1;
        } else {
            let ghost u = s@.skip(p as int);
            assert(u[0] == s@[p as int] && !is_ws(u[0]));
            let mut q = p;
            let mut val: usize = 0;
            let mut ok = true;
            loop
                invariant_except_break
                    p <= q <= len,
                    len == s@.len(),
                    forall|x: int| p <= x < q ==> !is_ws(#[trigger] s@[x]),
                    ok ==> all_digits(s@.subrange(p as int, q as int)) && val as nat == digits_val(
                        s@.subrange(p as int, q as int),
                    ),
                    !ok ==> (exists|x: int| p <= x < q && !is_digit(#[trigger] s@[x]))
                        || digits_val(s@.subrange(p as int, q as int)) > usize::MAX,
                ensures
                    p <= q <= len,
                    len == s@.len(),
                    forall|x: int| p <= x < q ==> !is_ws(#[trigger] s@[x]),
                    q == len || is_ws(s@[q as int]),
                    ok ==> all_digits(s@.subrange(p as int, q as int)) && val as nat == digits_val(
                        s@.subrange(p as int, q as int),
                    ),
                    !ok ==> (exists|x: int| p <= x < q && !is_digit(#[trigger] s@[x]))
                        || digits_val(s@.subrange(p as int, q as int)) > usize::MAX,
                decreases len - q,
            {
                if q == len {
                    break;
                }
                let cq = s.get_char(q);
                if cq == ' ' || cq == '\n' || cq == '\t' || cq == '\r' {
                    break;
                }
                let ghost pref = s@.subrange(p as int, q as int);
                let ghost prefq = s@.subrange(p as int, q as int + 1);
                proof {
                    assert(prefq.drop_last() =~= pref);
                    assert(prefq.last() == s@[q as int]);
                }
                let code = cq as u32;
                if code >= 48 && code <= 57 {
                    let d = (code - 48) as usize;
                    assert(is_digit(s@[q as int]) && digit_val(s@[q as int]) == d as nat);
                    if ok {
                        if val > (usize::MAX - d) / 10 {
                            proof {
                                assert(val as nat * 10 + d as nat > usize::MAX as nat)
                                    by (nonlinear_arith)
                                    requires
                                        val > (usize::MAX - d) / 10,
                                        d <= 9,
                                ;
                                assert(digits_val(prefq) > usize::MAX);
                            }
                            ok = false;
                        } else {
                            proof {
                                assert(val as nat * 10 + d as nat <= usize::MAX as nat)
                                    by (nonlinear_arith)
                                    requires
                                        val <= (usize::MAX - d) / 10,
                                        d <= 9,
                                ;
                            }
                            val = val * 10 + d;
                        }
                    } else {
                        proof {
                            if !(exists|x: int| p <= x < q && !is_digit(#[trigger] s@[x])) {
                                lemma_digits_val_prefix(prefq, q as int - p as int);
                                assert(prefq.take(q as int - p as int) =~= pref);
                            }
                        }
                    }
                } else {
                    assert(!is_digit(s@[q as int]));
                    proof {
                        if ok {
                        } else {
                            if !(exists|x: int| p <= x < q && !is_digit(#[trigger] s@[x])) {
                                lemma_digits_val_prefix(prefq, q as int - p as int);
                                assert(prefq.take(q as int - p as int) =~= pref);
                            }
                        }
                    }
                    ok = false;
                }
                q = q + 1;
            }
            let ghost tok = s@.subrange(p as int, q as int);
            proof {
                assert forall|x: int| 0 <= x < q - p implies !is_ws(#[trigger] u[x]) by {
                    assert(u[x] == s@[p + x]);
                }
                if (q as int) - (p as int) < u.len() {
                    assert(u[q - p] == s@[q as int]);
                }
                lemma_token_len_exact(u, q as int - p as int);
                assert(u.take(q as int - p as int) =~= tok);
                assert(u.skip(q as int - p as int) =~= s@.skip(q as int));
                assert(spec_tokens(u) == seq![tok] + spec_tokens(s@.skip(q as int)));
                assert(spec_tokens(s@) == done + (seq![tok] + spec_tokens(s@.skip(q as int))));
                assert((done + (seq![tok] + spec_tokens(s@.skip(q as int)))) =~= (done.push(tok)
                    + spec_tokens(s@.skip(q as int))));
            }
            if ok {
                out.push(val);
                proof {
                    done = done.push(tok);
                }
                p = q;
            } else {
                proof {
                    assert(spec_tokens(s@)[done.len() as int] == tok);
                    assert(!(all_digits(tok) && digits_val(tok) <= usize::MAX)) by {
                        if exists|x: int| p <= x < q && !is_digit(#[trigger] s@[x]) {
                            let x = choose|x: int| p <= x < q && !is_digit(#[trigger] s@[x]);
                            assert(tok[x - p as int] == s@[x]);
                            assert(!all_digits(tok));
                        }
                    }
                    assert(!tokens_valid(s@));
                }
                return Err(Error::MalformedHierarchyStream);
            }
        }
    }
    proof {
        assert(s@.skip(len as int) =~= Seq::<char>::empty());
        assert(spec_tokens(s@) == done);
        assert(out@ =~= token_values(s@));
    }
    Ok(out)
}


// ---- the coolist edge-list format ----

/// One coolist line: `i j weight`, space-separated.
pub open spec fn coolist_line(e: ((usize, usize), usize)) -> Seq<char> {
    dec_digits(e.0.0 as nat) + seq![' '] + dec_digits(e.0.1 as nat) + seq![' '] + dec_digits(
        e.1 as nat,
    )
}

/// The coolist text of an edge list: one line per edge, in the list's
/// order, newline-separated, no trailing newline.
pub open spec fn coolist_text(s: Seq<((usize, usize), usize)>) -> Seq<char>
    decreases s.len(),
{
    if s.len() == 0 {
        Seq::empty()
    } else if s.len() == 1 {
        coolist_line(s[0])
    } else {
        coolist_line(s[0]) + seq!['\n'] + coolist_text(s.skip(1))
    }
}

/// Successive value triples `((i, j), w)` of a flat number list.
pub open spec fn triples_of(vals: Seq<usize>) -> Seq<((usize, usize), usize)>
    decreases vals.len(),
{
    if vals.len() < 3 {
        Seq::empty()
    } else {
        seq![((vals[0], vals[1]), vals[2])] + triples_of(vals.skip(3))
    }
}

proof fn lemma_tokens_of_line(e: ((usize, usize), usize))
    ensures
        spec_tokens(coolist_line(e)) == seq![
            dec_digits(e.0.0 as nat),
            dec_digits(e.0.1 as nat),
            dec_digits(e.1 as nat),
        ],
{
    let d1 = dec_digits(e.0.0 as nat);
    let d2 = dec_digits(e.0.1 as nat);
    let d3 = dec_digits(e.1 as nat);
    lemma_dec_digits(e.0.0 as nat);
    lemma_dec_digits(e.0.1 as nat);
    lemma_dec_digits(e.1 as nat);
    let r3 = seq![' '] + d3;
    let r2 = seq![' '] + d2 + r3;
    assert(coolist_line(e) =~= d1 + r2);
    lemma_tokens_append(d1, r2);
    lemma_tokens_of_digits(d1);
    assert(r2.skip(1) =~= d2 + r3);
    lemma_tokens_append(d2, r3);
    lemma_tokens_of_digits(d2);
    assert(r3.skip(1) =~= d3);
    lemma_tokens_of_digits(d3);
    assert(spec_tokens(r3) == spec_tokens(d3));
    assert(spec_tokens(r2) == spec_tokens(d2 + r3));
    assert(spec_tokens(coolist_line(e)) =~= seq![d1, d2, d3]);
}

/// Round trip: the coolist text of an edge list tokenizes into valid
/// numbers — three per edge — and grouping those numbers back into
/// triples reproduces the edge list exactly.
pub proof fn lemma_coolist_round_trip(s: Seq<((usize, usize), usize)>)
    ensures
        tokens_valid(coolist_text(s)),
        token_values(coolist_text(s)).len() == 3 * s.len(),
        triples_of(token_values(coolist_text(s))) == s,
    decreases s.len(),
{
    let text = coolist_text(s);
    if s.len() == 0 {
        assert(spec_tokens(text) =~= Seq::<Seq<char>>::empty());
        assert(token_values(text) =~= Seq::<usize>::empty());
        assert(triples_of(token_values(text)) =~= s);
    } else {
        let e = s[0];
        lemma_tokens_of_line(e);
        lemma_dec_digits(e.0.0 as nat);
        lemma_dec_digits(e.0.1 as nat);
        lemma_dec_digits(e.1 as nat);
        let line_tokens = seq![
            dec_digits(e.0.0 as nat),
            dec_digits(e.0.1 as nat),
            dec_digits(e.1 as nat),
        ];
        if s.len() == 1 {
            assert(text == coolist_line(e));
            assert(spec_tokens(text) == line_tokens);
            assert(token_values(text) =~= seq![e.0.0, e.0.1, e.1]);
            assert(token_values(text).skip(3) =~= Seq::<usize>::empty());
            assert(triples_of(token_values(text).skip(3)) =~= Seq::<(
                (usize, usize),
                usize,
            )>::empty());
            assert(((token_values(text)[0], token_values(text)[1]), token_values(text)[2]) == e);
            assert(triples_of(token_values(text)) =~= seq![e]);
            assert(s =~= seq![e]);
        } else {
            let rest = coolist_text(s.skip(1));
            lemma_coolist_round_trip(s.skip(1));
            let b = seq!['\n'] + rest;
            assert(text =~= coolist_line(e) + b);
            lemma_tokens_append(coolist_line(e), b);
            assert(b.skip(1) =~= rest);
            assert(spec_tokens(b) == spec_tokens(rest));
            assert(spec_tokens(text) == line_tokens + spec_tokens(rest));
            assert forall|i: int|
                0 <= i < spec_tokens(text).len() implies all_digits(
                #[trigger] spec_tokens(text)[i],
            ) && digits_val(spec_tokens(text)[i]) <= usize::MAX by {
                if i >= 3 {
                    assert(spec_tokens(text)[i] == spec_tokens(rest)[i - 3]);
                }
            }
            assert(token_values(text) =~= seq![e.0.0, e.0.1, e.1] + token_values(rest));
            assert(token_values(text).skip(3) =~= token_values(rest));
            assert(triples_of(token_values(text)) =~= seq![e] + triples_of(token_values(rest)));
            assert(seq![e] + s.skip(1) =~= s);
        }
    }
}

/// Parse a coolist text back into its `((i, j), weight)` triples. Fails
/// with `MalformedHierarchyStream` exactly when a token is not a
/// machine-sized number or the token count is not a multiple of three.
pub fn parse_coolist(s: &str) -> (r: Result<Vec<((usize, usize), usize)>, Error>)
    ensures
        match r {
            Ok(v) => {
                &&& tokens_valid(s@)
                &&& token_values(s@).len() % 3 == 0
                &&& v@ == triples_of(token_values(s@))
            },
            Err(e) => {
                &&& e == Error::MalformedHierarchyStream
                &&& !(tokens_valid(s@) && token_values(s@).len() % 3 == 0)
            },
        },
{
    let vals = match parse_usize_tokens(s) {
        Ok(v) => v,
        Err(e) => {
            return Err(e);
        },
    };
    let m = vals.len();
    if m % 3 != 0 {
        return Err(Error::MalformedHierarchyStream);
    }
    let ghost all = vals@;
    let mut out: Vec<((usize, usize), usize)> = Vec::new();
    let mut x: usize = 0;
    proof {
        assert(all.skip(0) =~= all);
    }
    while x < m
        invariant
            x <= m,
            m == all.len(),
            vals@ == all,
            x % 3 == 0,
            m % 3 == 0,
            triples_of(all) == out@ + triples_of(all.skip(x as int)),
        decreases m - x,
    {
        assert(x + 3 <= m);
        let t = ((vals[x], vals[x + 1]), vals[x + 2]);
        let ghost pre = out@;
        out.push(t);
        proof {
            let u = all.skip(x as int);
            assert(u.len() >= 3);
            assert(u[0] == all[x as int] && u[1] == all[x as int + 1] && u[2] == all[x as int
                + 2]);
            assert(u.skip(3) =~= all.skip(x as int + 3));
            assert(triples_of(u) == seq![t] + triples_of(all.skip(x as int + 3)));
            assert(pre + (seq![t] + triples_of(all.skip(x as int + 3))) =~= out@ + triples_of(
                all.skip(x as int + 3),
            ));
        }
        x = x + 3;
    }
    proof {
        assert(all.skip(m as int) =~= Seq::<usize>::empty());
        assert(out@ + triples_of(all.skip(m as int)) =~= out@);
    }
    Ok(out)
}

/// Lines joined by single newlines, no trailing newline.
pub open spec fn joined_lines(s: Seq<Seq<char>>) -> Seq<char>
    decreases s.len(),
{
    if s.len() == 0 {
        Seq::empty()
    } else if s.len() == 1 {
        s[0]
    } else {
        s[0] + seq!['\n'] + joined_lines(s.skip(1))
    }
}


fn join_lines_from(items: &Vec<String>, x: usize, out: &mut String)
    requires
        x <= items@.len(),
    ensures
        final(out)@ == old(out)@ + joined_lines(
            items@.map_values(|t: String| t@).skip(x as int),
        ),
    decreases items@.len() - x,
{
    let ghost views = items@.map_values(|t: String| t@);
    if x < items.len() {
        out.append(items[x].as_str());
        if x + 1 < items.len() {
            out.append("\n");
        }
        join_lines_from(items, x + 1, out);
        proof {
            reveal_strlit("\n");
            let u = views.skip(x as int);
            assert(u[0] == views[x as int]);
            assert(u.skip(1) =~= views.skip(x as int + 1));
            assert("\n"@ =~= seq!['\n']) by {
                assert("\n"@.len() == 1);
                assert("\n"@[0] == '\n');
            }
            assert(final(out)@ =~= old(out)@ + joined_lines(u));
        }
    } else {
        proof {
            assert(views.skip(x as int) =~= Seq::<Seq<char>>::empty());
        }
    }
}

/// The items joined by single newlines, no trailing newline — the
/// ingredient label file format.
pub fn lines_string(items: &Vec<String>) -> (r: String)
    ensures
        r@ == joined_lines(items@.map_values(|t: String| t@)),
{
    let mut out = String::new();
    join_lines_from(items, 0, &mut out);
    proof {
        assert(items@.map_values(|t: String| t@).skip(0) =~= items@.map_values(|t: String| t@));
        assert(out@ =~= joined_lines(items@.map_values(|t: String| t@)));
    }
    out
}


// ---- case-insensitive containment ----

/// ASCII lowercasing of one character; anything outside `A..Z` is kept.
pub open spec fn lower_char(c: char) -> char {
    if 65 <= c as int && c as int <= 90 {
        ((c as int) + 32) as char
    } else {
        c
    }
}

/// Whether `needle` matches `hay` at offset `off`, ignoring ASCII case.
pub open spec fn ci_match_at(hay: Seq<char>, needle: Seq<char>, off: int) -> bool {
    forall|p: int|
        0 <= p < needle.len() ==> lower_char(#[trigger] hay[off + p]) == lower_char(needle[p])
}

/// Whether `hay` contains `needle`, ignoring ASCII case.
pub open spec fn ci_contains(hay: Seq<char>, needle: Seq<char>) -> bool {
    exists|off: int|
        0 <= off && off + needle.len() <= hay.len() && #[trigger] ci_match_at(hay, needle, off)
}

/// ASCII-lowercase one character.
fn lower_char_exec(c: char) -> (r: char)
    ensures
        r == lower_char(c),
{
    let b = c as u32;
    if 65 <= b && b <= 90 {
        ((b + 32) as u8) as char
    } else {
        c
    }
}

/// Whether `hay` contains `needle` as a substring, ignoring ASCII case.
pub fn contains_ci(hay: &str, needle: &str) -> (r: bool)
    ensures
        r == ci_contains(hay@, needle@),
{
    let hl = hay.unicode_len();
    let nl = needle.unicode_len();
    if nl > hl {
        proof {
            if ci_contains(hay@, needle@) {
                let off = choose|off: int|
                    0 <= off && off + needle@.len() <= hay@.len() && #[trigger] ci_match_at(
                        hay@,
                        needle@,
                        off,
                    );
            }
        }
        return false;
    }
    let mut off: usize = 0;
    while off <= hl - nl
        invariant
            nl <= hl,
            hl == hay@.len(),
            nl == needle@.len(),
            off <= hl - nl + 1,
            forall|o2: int| 0 <= o2 < off ==> !(#[trigger] ci_match_at(hay@, needle@, o2)),
        decreases hl + 1 - nl - off,
    {
        let mut p: usize = 0;
        let mut hit = true;
        while p < nl
            invariant_except_break
                hit,
            invariant
                p <= nl,
                off + nl <= hl,
                hl == hay@.len(),
                nl == needle@.len(),
                forall|p2: int|
                    0 <= p2 < p ==> lower_char(#[trigger] hay@[off + p2]) == lower_char(
                        needle@[p2],
                    ),
            ensures
                hit ==> p == nl,
                !hit ==> p < nl && lower_char(hay@[off as int + p]) != lower_char(
                    needle@[p as int],
                ),
                forall|p2: int|
                    0 <= p2 < p ==> lower_char(#[trigger] hay@[off + p2]) == lower_char(
                        needle@[p2],
                    ),
            decreases nl - p,
        {
            let hc = lower_char_exec(hay.get_char(off + p));
            let nc = lower_char_exec(needle.get_char(p));
            if hc != nc {
                hit = false;
                break;
            }
            p = p + 1;
        }
        if hit {
            proof {
                assert(ci_match_at(hay@, needle@, off as int));
            }
            return true;
        }
        proof {
            assert(!ci_match_at(hay@, needle@, off as int));
        }
        off = off + 1;
    }
    proof {
        if ci_contains(hay@, needle@) {
            let o2 = choose|o2: int|
                0 <= o2 && o2 + needle@.len() <= hay@.len() && #[trigger] ci_match_at(
                    hay@,
                    needle@,
                    o2,
                );
            assert(o2 < off);
        }
    }
    false
}

} // verus!
