//! Cache-tiled, register-blocked GEMM encoder.
//!
//! The encoder is blocked in the manner of BLIS:
//!
//! ```text
//! for m_block in (0..d_sae).step_by(M_C):       # threads partition here
//!   for f0 in m_block..m_end step M_R:          # panels
//!     for b0 in 0..batch step N_R:
//!       microkernel(M_R x N_R tile, all of d_in)
//! ```
//!
//! M is `d_sae` (features, output rows), N is `batch`, K is `d_in`. The
//! microkernel produces an `M_R x N_R` register tile of pre-activations.

use vstd::prelude::*;
use vstd::string::*;

use crate::text::{decimal, digit};

pub mod pack;
pub mod tiled;
pub mod tiled_scalar;

verus! {

/// Default register-tile row count (M_R).
///
/// The packing layout depends on it, so it is recorded in the layout of the
/// encoder weights, and the kernels read it from there.
pub const DEFAULT_M_R: usize = 16;

/// Default number of reduction elements per cache chunk.
pub const DEFAULT_K_C: usize = 512;

/// Default number of features per M-block.
pub const DEFAULT_M_C: usize = 512;

/// Cap on the number of batch rows per cache block.
pub const DEFAULT_N_C_CAP: usize = 8192;

/// The part of a text before its first comma.
pub open spec fn first_field(s: Seq<char>) -> Seq<char>
    decreases s.len(),
{
    if s.len() == 0 || s[0] == ',' {
        Seq::empty()
    } else {
        seq![s[0]] + first_field(s.skip(1))
    }
}

/// Whether a text is one or more decimal digits.
pub open spec fn all_digits(s: Seq<char>) -> bool {
    s.len() > 0 && forall|i: int| 0 <= i < s.len() ==> '0' <= #[trigger] s[i] <= '9'
}

/// The number that decimal digits stand for.
pub open spec fn value_of(s: Seq<char>) -> int
    decreases s.len(),
{
    if s.len() == 0 {
        0
    } else {
        10 * value_of(s.drop_last()) + (s.last() as int - '0' as int)
    }
}

/// The number that a text stands for: decimal digits, with or without a plus
/// sign in front.
pub open spec fn number_of(s: Seq<char>) -> Option<int> {
    let digits = if s.len() > 0 && s[0] == '+' {
        s.skip(1)
    } else {
        s
    };
    if all_digits(digits) {
        Some(value_of(digits))
    } else {
        None
    }
}

/// The M-block size that a tile setting asks for.
pub open spec fn m_c_of(setting: Option<&str>) -> int {
    match setting {
        Some(s) => match number_of(first_field(s@)) {
            Some(v) => if 0 < v <= usize::MAX {
                v
            } else {
                DEFAULT_M_C as int
            },
            None => DEFAULT_M_C as int,
        },
        None => DEFAULT_M_C as int,
    }
}

/// The first field of a text is a prefix without commas, which ends at the end
/// of the text or before a comma.
proof fn lemma_first_field(s: Seq<char>, n: int)
    requires
        0 <= n <= s.len(),
        forall|i: int| 0 <= i < n ==> #[trigger] s[i] != ',',
        n < s.len() ==> s[n] == ',',
    ensures
        first_field(s) == s.take(n),
    decreases s.len(),
{
    if n > 0 {
        assert forall|i: int| 0 <= i < n - 1 implies #[trigger] s.skip(1)[i] != ',' by {
            assert(s.skip(1)[i] == s[i + 1]);
        }
        lemma_first_field(s.skip(1), n - 1);
        assert(seq![s[0]] + s.skip(1).take(n - 1) =~= s.take(n));
    } else {
        assert(s.take(0) =~= Seq::<char>::empty());
    }
}

/// More digits stand for no smaller a number.
proof fn lemma_value_grows(s: Seq<char>, n: int)
    requires
        0 <= n <= s.len(),
        forall|i: int| 0 <= i < s.len() ==> '0' <= #[trigger] s[i] <= '9',
    ensures
        0 <= value_of(s.take(n)) <= value_of(s),
    decreases s.len(),
{
    if n == s.len() {
        assert(s.take(n) =~= s);
        if s.len() > 0 {
            lemma_value_grows(s.drop_last(), s.len() - 1);
            assert(s.drop_last().take(s.len() - 1) =~= s.drop_last());
        }
    } else {
        lemma_value_grows(s.drop_last(), n);
        assert(s.drop_last().take(n) =~= s.take(n));
    }
}

/// Read the characters `start..end` of a text as a decimal number, if they are
/// digits that stand for a `usize`.
fn read_digits(s: &str, start: usize, end: usize) -> (res: Option<usize>)
    requires
        start <= end <= s@.len(),
    ensures
        res is Some <==> all_digits(s@.subrange(start as int, end as int)) && value_of(
            s@.subrange(start as int, end as int),
        ) <= usize::MAX,
        res matches Some(v) ==> v == value_of(s@.subrange(start as int, end as int)),
{
    let ghost digits = s@.subrange(start as int, end as int);
    if start == end {
        return None;
    }
    let mut acc: usize = 0;
    let mut i: usize = start;
    while i < end
        invariant
            start <= i <= end <= s@.len(),
            digits == s@.subrange(start as int, end as int),
            forall|t: int| 0 <= t < i - start ==> '0' <= #[trigger] digits[t] <= '9',
            acc == value_of(digits.take(i - start)),
        decreases end - i,
    {
        let c: char = s.get_char(i);
        assert(c == digits[i - start]);
        if c < '0' || c > '9' {
            return None;
        }
        let d: usize = (c as u32 - 48) as usize;
        let ghost longer = digits.take(i - start + 1);
        proof {
            assert(longer.drop_last() =~= digits.take(i - start));
            assert(value_of(longer) == 10 * acc + d);
            if all_digits(digits) {
                lemma_value_grows(digits, i - start + 1);
            }
        }
        if acc > usize::MAX / 10 || d > usize::MAX - 10 * acc {
            return None;
        }
        acc = 10 * acc + d;
        i += 1;
    }
    assert(digits.take(end - start) =~= digits);
    Some(acc)
}

/// Resolve the M-block grouping size from the value of the
/// `SAEITOSHI_GEMM_TILE=MC,NC,KC` setting, where there is one, falling back to
/// [`DEFAULT_M_C`].
///
/// Only `MC` is consumed; `NC` and `KC` are ignored.
pub fn m_c_runtime(setting: Option<&str>) -> (res: usize)
    ensures
        res == m_c_of(setting),
        res > 0,
{
    match setting {
        Some(s) => {
            let n: usize = s.unicode_len();
            let mut end: usize = 0;
            while end < n && s.get_char(end) != ','
                invariant
                    end <= n,
                    n == s@.len(),
                    forall|i: int| 0 <= i < end ==> #[trigger] s@[i] != ',',
                decreases n - end,
            {
                end += 1;
            }
            let ghost field = s@.take(end as int);
            proof {
                lemma_first_field(s@, end as int);
            }
            let start: usize = if end > 0 && s.get_char(0) == '+' {
                1
            } else {
                0
            };
            proof {
                assert(end > 0 ==> field[0] == s@[0]);
                if start == 1 {
                    assert(field.skip(1) =~= s@.subrange(1, end as int));
                } else {
                    assert(field =~= s@.subrange(0, end as int));
                }
            }
            match read_digits(s, start, end) {
                Some(v) => if v > 0 {
                    v
                } else {
                    DEFAULT_M_C
                },
                None => DEFAULT_M_C,
            }
        },
        None => DEFAULT_M_C,
    }
}

/// Decimal notation is read as the number that it stands for.
proof fn lemma_notation(n: nat)
    ensures
        all_digits(decimal(n)),
        value_of(decimal(n)) == n,
    decreases n,
{
    if n >= 10 {
        lemma_notation(n / 10);
        let d = decimal(n);
        assert(d.drop_last() =~= decimal(n / 10));
        assert(d.last() == digit((n % 10) as int));
        assert forall|i: int| 0 <= i < d.len() implies '0' <= #[trigger] d[i] <= '9' by {
            if i < d.len() - 1 {
                assert(d[i] == decimal(n / 10)[i]);
            }
        }
    } else {
        assert(decimal(n).drop_last() =~= Seq::<char>::empty());
        assert(decimal(n).last() == digit(n as int));
        assert(value_of(Seq::<char>::empty()) == 0);
    }
}

/// The tile setting is a list whose first entry is the M-block size: a positive number in
/// decimal notation is taken as it is, alone or before a comma, with or without a plus
/// sign. Zero, a number that is too large, and no setting at all give 512.
pub proof fn a_tile_setting_is_read(n: nat, rest: Seq<char>, setting: &str)
    ensures
        ({
            let taken = if 0 < n <= usize::MAX {
                n as int
            } else {
                512
            };
            &&& setting@ == decimal(n) ==> m_c_of(Some(setting)) == taken
            &&& setting@ == decimal(n) + seq![','] + rest ==> m_c_of(Some(setting)) == taken
            &&& setting@ == seq!['+'] + decimal(n) ==> m_c_of(Some(setting)) == taken
            &&& setting@ == seq!['+'] + decimal(n) + seq![','] + rest ==> m_c_of(Some(setting))
                == taken
            &&& setting@.len() == 0 ==> m_c_of(Some(setting)) == 512
            &&& m_c_of(None) == 512
        }),
{
    lemma_notation(n);
    let d = decimal(n);
    let p = seq!['+'] + d;
    let s = setting@;
    assert(p.skip(1) =~= d);
    assert(d[0] != '+');
    if s == d {
        lemma_first_field(s, s.len() as int);
        assert(s.take(s.len() as int) =~= d);
    }
    if s == d + seq![','] + rest {
        assert forall|i: int| 0 <= i < d.len() implies #[trigger] s[i] != ',' by {
            assert(s[i] == d[i]);
        }
        lemma_first_field(s, d.len() as int);
        assert(s.take(d.len() as int) =~= d);
    }
    if s == p {
        assert forall|i: int| 0 <= i < s.len() implies #[trigger] s[i] != ',' by {
            if i > 0 {
                assert(s[i] == d[i - 1]);
            }
        }
        lemma_first_field(s, s.len() as int);
        assert(s.take(s.len() as int) =~= p);
    }
    if s == p + seq![','] + rest {
        assert forall|i: int| 0 <= i < p.len() implies #[trigger] s[i] != ',' by {
            assert(s[i] == p[i]);
            if i > 0 {
                assert(p[i] == d[i - 1]);
            }
        }
        lemma_first_field(s, p.len() as int);
        assert(s.take(p.len() as int) =~= p);
    }
}

/// A setting whose first entry holds anything but digits, behind a plus sign or not, gives
/// 512.
pub proof fn other_tile_settings_are_ignored(setting: &str, n: int, i: int)
    requires
        0 <= n <= setting@.len(),
        forall|j: int| 0 <= j < n ==> #[trigger] setting@[j] != ',',
        n < setting@.len() ==> setting@[n] == ',',
        0 <= i < n,
        !('0' <= setting@[i] <= '9'),
        i > 0 || setting@[0] != '+' || n == 1,
    ensures
        m_c_of(Some(setting)) == 512,
{
    let s = setting@;
    lemma_first_field(s, n);
    let t = s.take(n);
    if t[0] == '+' {
        let d = t.skip(1);
        if n > 1 {
            assert(d[i - 1] == s[i]);
        }
    } else {
        assert(t[i] == s[i]);
    }
}

} // verus!
