use vstd::prelude::*;

verus! {

/// The ASCII bytes the tag grammar is written in.
pub const OPEN_BRACKET: u8 = 91;

pub const CLOSE_BRACKET: u8 = 93;

pub const COLON: u8 = 58;

pub const DOT: u8 = 46;

pub const DIGIT_ZERO: u8 = 48;

pub const DIGIT_NINE: u8 = 57;

/// True of the ASCII digit bytes `'0'` through `'9'`.
pub open spec fn is_digit(b: u8) -> bool {
    DIGIT_ZERO <= b && b <= DIGIT_NINE
}

/// The decimal value of a run of ASCII digit bytes.
pub open spec fn digits_val(s: Seq<u8>) -> nat
    decreases s.len(),
{
    if s.len() == 0 {
        0
    } else {
        digits_val(s.drop_last()) * 10 + (s.last() - DIGIT_ZERO) as nat
    }
}

/// The first position at or after `i` that does not hold an ASCII digit, or
/// the end of the sequence if the digits run out to it.
pub open spec fn digit_run_end(s: Seq<u8>, i: int) -> int
    decreases s.len() - i,
{
    if i < 0 || i >= s.len() {
        i
    } else if is_digit(s[i]) {
        digit_run_end(s, i + 1)
    } else {
        i
    }
}

/// Ten to the `n`th power.
pub open spec fn pow10(n: nat) -> nat
    decreases n,
{
    if n == 0 {
        1
    } else {
        10 * pow10((n - 1) as nat)
    }
}

/// One bracketed time tag at the start of `s`: a `[`, one or more minute
/// digits, a `:`, one or more second digits, a `.`, one to three fraction
/// digits (greedy, so a fourth digit malforms the tag), and a `]`. Returns
/// how many bytes the tag occupies and its offset in milliseconds: the
/// fraction counts tenths, hundredths or milliseconds according to how many
/// digits were written. Any other shape is a malformed tag.
pub open spec fn spec_time_tag(s: Seq<u8>) -> Option<(int, nat)> {
    if s.len() == 0 || s[0] != OPEN_BRACKET {
        None
    } else {
        let m_end = digit_run_end(s, 1);
        if m_end == 1 || m_end >= s.len() || s[m_end] != COLON {
            None
        } else {
            let s_end = digit_run_end(s, m_end + 1);
            if s_end == m_end + 1 || s_end >= s.len() || s[s_end] != DOT {
                None
            } else {
                let f_start = s_end + 1;
                let f_run = digit_run_end(s, f_start);
                let f_end = if f_run > f_start + 3 { f_start + 3 } else { f_run };
                if f_end == f_start || f_end >= s.len() || s[f_end] != CLOSE_BRACKET {
                    None
                } else {
                    let minutes = digits_val(s.subrange(1, m_end));
                    let seconds = digits_val(s.subrange(m_end + 1, s_end));
                    let frac = digits_val(s.subrange(f_start, f_end));
                    let scale = pow10((3 - (f_end - f_start)) as nat);
                    Some((f_end + 1, minutes * 60000 + seconds * 1000 + frac * scale))
                }
            }
        }
    }
}

/// The positions a digit run spans: its end lies between `i` and the end of
/// the sequence, everything before it is a digit, and the byte at it (if any)
/// is not.
pub proof fn lemma_digit_run_end_props(s: Seq<u8>, i: int)
    requires
        0 <= i <= s.len(),
    ensures
        i <= digit_run_end(s, i) <= s.len(),
        forall|k: int| i <= k < digit_run_end(s, i) ==> is_digit(s[k]),
        digit_run_end(s, i) < s.len() ==> !is_digit(s[digit_run_end(s, i)]),
    decreases s.len() - i,
{
    if i < s.len() && is_digit(s[i]) {
        lemma_digit_run_end_props(s, i + 1);
    }
}

/// A well-formed tag occupies at least seven bytes and no more than the
/// sequence holds.
pub proof fn lemma_time_tag_consumed(s: Seq<u8>)
    requires
        spec_time_tag(s) is Some,
    ensures
        spec_time_tag(s) matches Some(p) ==> 7 <= p.0 <= s.len(),
{
    lemma_digit_run_end_props(s, 1);
    let m_end = digit_run_end(s, 1);
    lemma_digit_run_end_props(s, m_end + 1);
    let s_end = digit_run_end(s, m_end + 1);
    lemma_digit_run_end_props(s, s_end + 1);
}

/// The value of a digit run grows, or stays, as digits are appended: every
/// prefix is worth at most the whole.
pub proof fn lemma_digits_val_prefix(s: Seq<u8>, k: int)
    requires
        0 <= k <= s.len(),
    ensures
        digits_val(s.take(k)) <= digits_val(s),
    decreases s.len() - k,
{
    if k < s.len() {
        assert(s.take(k + 1).drop_last() =~= s.take(k));
        assert(digits_val(s.take(k + 1)) == digits_val(s.take(k)) * 10 + (s.take(k + 1).last()
            - DIGIT_ZERO) as nat);
        lemma_digits_val_prefix(s, k + 1);
    } else {
        assert(s.take(k) =~= s);
    }
}

/// A run of `n` digits is worth less than ten to the `n`th power.
pub proof fn lemma_digits_val_bound(s: Seq<u8>)
    requires
        forall|k: int| 0 <= k < s.len() ==> is_digit(s[k]),
    ensures
        digits_val(s) < pow10(s.len()),
    decreases s.len(),
{
    if s.len() > 0 {
        assert(forall|k: int| 0 <= k < s.drop_last().len() ==> is_digit(s.drop_last()[k]));
        lemma_digits_val_bound(s.drop_last());
        assert(pow10(s.len()) == 10 * pow10((s.len() - 1) as nat));
        assert((s.last() - DIGIT_ZERO) as nat <= 9);
    }
}

/// Scales a fraction of `frac_len` digits to milliseconds: one digit counts
/// tenths, two count hundredths, three count milliseconds as written.
fn scale_frac(frac: usize, frac_len: usize) -> (r: usize)
    requires
        1 <= frac_len <= 3,
        (frac as nat) < pow10(frac_len as nat),
    ensures
        r as nat == frac as nat * pow10((3 - frac_len) as nat),
        r <= 999,
{
    proof {
        reveal_with_fuel(pow10, 4);
        assert(pow10(0) == 1 && pow10(1) == 10 && pow10(2) == 100 && pow10(3) == 1000);
    }
    let ghost p = pow10((3 - frac_len) as nat);
    if frac_len == 1 {
        let r = frac * 100;
        proof {
            assert(r as nat == frac as nat * p) by (nonlinear_arith)
                requires
                    r == frac * 100,
                    p == 100,
            ;
        }
        r
    } else if frac_len == 2 {
        let r = frac * 10;
        proof {
            assert(r as nat == frac as nat * p) by (nonlinear_arith)
                requires
                    r == frac * 10,
                    p == 10,
            ;
        }
        r
    } else {
        proof {
            assert(frac as nat == frac as nat * p) by (nonlinear_arith)
                requires
                    p == 1,
            ;
        }
        frac
    }
}

/// Reads the decimal value of `src[start..end]`, a run of ASCII digits, into
/// a machine word; reports nothing exactly when the value is too large for
/// one.
fn parse_digits(src: &[u8], start: usize, end: usize) -> (r: Option<usize>)
    requires
        start <= end <= src@.len(),
        forall|k: int| start <= k < end ==> is_digit(src@[k]),
    ensures
        r is Some <==> digits_val(src@.subrange(start as int, end as int)) <= usize::MAX,
        r matches Some(v) ==> v as nat == digits_val(src@.subrange(start as int, end as int)),
{
    let ghost full = src@.subrange(start as int, end as int);
    let mut acc: usize = 0;
    let mut i: usize = start;
    while i < end
        invariant
            start <= i <= end <= src@.len(),
            forall|k: int| start <= k < end ==> is_digit(src@[k]),
            full == src@.subrange(start as int, end as int),
            acc as nat == digits_val(full.take(i - start)),
        decreases end - i,
    {
        let d = src[i] - DIGIT_ZERO;
        proof {
            assert(full.take(i - start + 1).drop_last() =~= full.take(i - start));
            assert(full.take(i - start + 1).last() == src@[i as int]);
        }
        let acc10 = match acc.checked_mul(10) {
            Some(v) => v,
            None => {
                proof {
                    lemma_digits_val_prefix(full, i - start + 1);
                }
                return None;
            },
        };
        acc = match acc10.checked_add(d as usize) {
            Some(v) => v,
            None => {
                proof {
                    lemma_digits_val_prefix(full, i - start + 1);
                }
                return None;
            },
        };
        i = i + 1;
    }
    proof {
        assert(full.take(end - start) =~= full);
    }
    Some(acc)
}

/// The end of the run of ASCII digits that starts at `from`.
fn digit_run(src: &[u8], from: usize) -> (r: usize)
    requires
        from <= src@.len(),
    ensures
        r as int == digit_run_end(src@, from as int),
        from <= r <= src@.len(),
        forall|k: int| from <= k < r ==> is_digit(src@[k]),
        r < src@.len() ==> !is_digit(src@[r as int]),
{
    let mut i = from;
    while i < src.len() && DIGIT_ZERO <= src[i] && src[i] <= DIGIT_NINE
        invariant
            from <= i <= src@.len(),
            digit_run_end(src@, from as int) == digit_run_end(src@, i as int),
            forall|k: int| from <= k < i ==> is_digit(src@[k]),
        decreases src@.len() - i,
    {
        i = i + 1;
    }
    i
}

/// Parses one leading time tag of `src`, as `spec_time_tag` lays it out,
/// returning how many bytes it occupies and its offset in milliseconds.
/// Returns nothing exactly when no well-formed tag leads `src` or its offset
/// does not fit a machine word.
pub fn parse_time(src: &[u8]) -> (r: Option<(usize, usize)>)
    ensures
        r is Some <==> (spec_time_tag(src@) matches Some(p) && p.1 <= usize::MAX),
        r matches Some(q) ==> spec_time_tag(src@) == Some((q.0 as int, q.1 as nat)),
{
    let n = src.len();
    if n == 0 || src[0] != OPEN_BRACKET {
        return None;
    }
    let m_end = digit_run(src, 1);
    if m_end == 1 || m_end == n || src[m_end] != COLON {
        return None;
    }
    let s_start = m_end + 1;
    let s_end = digit_run(src, s_start);
    if s_end == s_start || s_end == n || src[s_end] != DOT {
        return None;
    }
    let f_start = s_end + 1;
    let f_run = digit_run(src, f_start);
    let f_end = if f_run - f_start > 3 {
        f_start + 3
    } else {
        f_run
    };
    if f_end == f_start || f_end == n || src[f_end] != CLOSE_BRACKET {
        return None;
    }
    let ghost m_seq = src@.subrange(1, m_end as int);
    let ghost s_seq = src@.subrange(s_start as int, s_end as int);
    let ghost f_seq = src@.subrange(f_start as int, f_end as int);
    let ghost total = digits_val(m_seq) * 60000 + digits_val(s_seq) * 1000 + digits_val(f_seq)
        * pow10((3 - (f_end - f_start)) as nat);
    assert(spec_time_tag(src@) == Some(((f_end + 1) as int, total)));

    let frac_len = f_end - f_start;
    proof {
        reveal_with_fuel(pow10, 4);
        assert(pow10(0) == 1 && pow10(1) == 10 && pow10(2) == 100 && pow10(3) == 1000);
        lemma_digits_val_bound(f_seq);
        assert(f_seq.len() == frac_len);
        assert(1 <= frac_len <= 3);
    }
    let frac = match parse_digits(src, f_start, f_end) {
        Some(v) => v,
        None => {
            return None;
        },
    };
    let frac_scaled = scale_frac(frac, frac_len);
    assert(frac_scaled as nat == digits_val(f_seq) * pow10((3 - (f_end - f_start)) as nat));

    let minutes = match parse_digits(src, 1, m_end) {
        Some(v) => v,
        None => {
            return None;
        },
    };
    let seconds = match parse_digits(src, s_start, s_end) {
        Some(v) => v,
        None => {
            return None;
        },
    };
    let m_ms = match minutes.checked_mul(60000) {
        Some(v) => v,
        None => {
            return None;
        },
    };
    let s_ms = match seconds.checked_mul(1000) {
        Some(v) => v,
        None => {
            return None;
        },
    };
    let partial = match m_ms.checked_add(s_ms) {
        Some(v) => v,
        None => {
            return None;
        },
    };
    let time = match partial.checked_add(frac_scaled) {
        Some(v) => v,
        None => {
            return None;
        },
    };
    Some((f_end + 1, time))
}

} // verus!
