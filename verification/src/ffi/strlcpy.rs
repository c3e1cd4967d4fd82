//! `strlcpy` as OpenBSD's libc has it, on buffers instead of raw pointers.

use libc::c_char;
use vstd::prelude::*;

verus! {

/// `n` is the length of the C string at the start of `s`: the index of the
/// first NUL in `s`.
pub open spec fn strlen_is(s: Seq<c_char>, n: int) -> bool {
    &&& 0 <= n < s.len()
    &&& s[n] == 0
    &&& forall|j: int| 0 <= j < n ==> s[j] != 0
}

/// `s` holds a NUL somewhere, so a C string starts at its beginning.
pub open spec fn is_c_string(s: Seq<c_char>) -> bool {
    exists|n: int| strlen_is(s, n)
}

/// The length of the C string at the start of `s` (meaningful where
/// `is_c_string(s)`).
pub open spec fn c_strlen(s: Seq<c_char>) -> int {
    choose|n: int| strlen_is(s, n)
}

/// The first NUL is unique, so `c_strlen` names it.
pub proof fn lemma_c_strlen(s: Seq<c_char>)
    requires
        is_c_string(s),
    ensures
        strlen_is(s, c_strlen(s)),
        forall|m: int| strlen_is(s, m) ==> m == c_strlen(s),
{
    let n = c_strlen(s);
    assert forall|m: int| strlen_is(s, m) implies m == n by {
        if m < n {
            assert(s[m] != 0);
        } else if n < m {
            assert(s[n] != 0);
        }
    }
}

/// A buffer with a NUL at `i` holds a C string no longer than `i`.
pub proof fn lemma_nul_gives_c_string(s: Seq<c_char>, i: int)
    requires
        0 <= i < s.len(),
        s[i] == 0,
    ensures
        is_c_string(s),
        c_strlen(s) <= i,
    decreases i,
{
    if exists|j: int| 0 <= j < i && s[j] == 0 {
        let j = choose|j: int| 0 <= j < i && s[j] == 0;
        lemma_nul_gives_c_string(s, j);
    } else {
        assert(strlen_is(s, i));
    }
    lemma_c_strlen(s);
}

/// How many characters of a string of `len` characters a copy into a
/// buffer of `dsize > 0` bytes keeps: all of them, or `dsize - 1` when they
/// do not fit with the NUL.
pub open spec fn kept_len(len: int, dsize: int) -> int {
    if len < dsize - 1 {
        len
    } else {
        dsize - 1
    }
}

/// As `strlcpy` promises: the copy was truncated (kept fewer characters
/// than the string has) exactly when the returned length is at least
/// `dsize`.
pub proof fn law_strlcpy_truncation(len: int, dsize: int)
    requires
        0 <= len,
        1 <= dsize,
    ensures
        kept_len(len, dsize) < len <==> len >= dsize,
        kept_len(len, dsize) <= dsize - 1,
{
}

/// Rust's division of `x` by a positive `d`, which rounds toward zero.
pub open spec fn trunc_div(x: int, d: int) -> int {
    if x >= 0 {
        x / d
    } else {
        -((-x) / d)
    }
}

/// The address `n` elements of `pointee_size` bytes away from address
/// `origin`, wrapping around the address space as `wrapping_offset` does.
pub open spec fn offset_address(origin: usize, n: isize, pointee_size: usize) -> usize {
    ((origin as isize).wrapping_add((n * pointee_size) as isize)) as usize
}

/// `wrapping_offset_from` undoes an offset: from the address `n` elements
/// away from `origin` back to `origin` lie `n` elements, as long as those
/// `n` elements span no more bytes than an `isize` counts.
pub proof fn law_offset_from_inverts_offset(origin: usize, n: isize, pointee_size: usize)
    requires
        0 < pointee_size <= isize::MAX,
        isize::MIN <= n * pointee_size <= isize::MAX,
    ensures
        trunc_div(
            (offset_address(origin, n, pointee_size) as isize).wrapping_sub(origin as isize) as int,
            pointee_size as int,
        ) == n,
{
    let x: isize = origin as isize;
    let k: isize = (n * pointee_size) as isize;
    let y: isize = x.wrapping_add(k);
    assert((y as usize) as isize == y) by (bit_vector);
    assert(offset_address(origin, n, pointee_size) as isize == y);
    assert(y.wrapping_sub(x) == k);
    let s: int = pointee_size as int;
    let m: int = n as int;
    if m >= 0 {
        assert((m * s) / s == m) by (nonlinear_arith)
            requires
                s > 0,
        ;
    } else {
        assert(-(m * s) == (-m) * s) by (nonlinear_arith);
        assert(((-m) * s) / s == -m) by (nonlinear_arith)
            requires
                s > 0,
        ;
    }
}

/// How many elements of `pointee_size` bytes lie from address `origin` up to
/// address `this`: the wrapping difference of the two addresses divided by
/// the element size, rounded toward zero.
pub fn wrapping_offset_from(this: usize, origin: usize, pointee_size: usize) -> (d: isize)
    requires
        0 < pointee_size <= isize::MAX,
    ensures
        d == trunc_div((this as isize).wrapping_sub(origin as isize) as int, pointee_size as int),
{
    let diff: isize = (this as isize).wrapping_sub(origin as isize);
    if pointee_size == 1 {
        return diff;
    }
    let size: isize = pointee_size as isize;
    let ghost x = diff as int;
    let ghost s = size as int;
    if diff >= 0 {
        assert(0 <= x / s <= x) by (nonlinear_arith)
            requires
                x >= 0,
                s >= 1,
        ;
        diff / size
    } else {
        let ghost neg = -x;
        assert(0 <= neg / s <= neg / 2) by (nonlinear_arith)
            requires
                neg >= 1,
                s >= 2,
        ;
        let q: isize = if diff == isize::MIN {
            // The magnitude of isize::MIN does not fit in an isize.
            let half: usize = (isize::MAX as usize) + 1;
            assert(half == neg);
            (half / pointee_size) as isize
        } else {
            (-diff) / size
        };
        -q
    }
}

/// Copies the C string at the start of `src` into `dst`, where `dsize` is
/// taken as the size of `dst`. At most `dsize - 1` characters are copied,
/// and the copy is always NUL-terminated (unless `dsize == 0`). Returns the
/// length of the C string in `src`; if that is `>= dsize`, the copy was
/// truncated. Nothing else in `dst` changes.
pub fn strlcpy(dst: &mut [c_char], src: &[c_char], dsize: usize) -> (r: usize)
    requires
        is_c_string(src@),
        dsize != 0 ==> kept_len(c_strlen(src@), dsize as int) < old(dst)@.len(),
    ensures
        r == c_strlen(src@),
        final(dst)@.len() == old(dst)@.len(),
        dsize == 0 ==> final(dst)@ == old(dst)@,
        dsize != 0 ==> {
            let k = kept_len(r as int, dsize as int);
            &&& final(dst)@.subrange(0, k) == src@.subrange(0, k)
            &&& final(dst)@[k] == 0
            &&& final(dst)@.subrange(k + 1, final(dst)@.len() as int) == old(dst)@.subrange(
                k + 1,
                old(dst)@.len() as int,
            )
        },
{
    proof {
        lemma_c_strlen(src@);
    }
    let ghost n = c_strlen(src@);
    let ghost dst0 = dst@;
    let osrc: usize = 0;
    let mut s: usize = 0;
    let mut d: usize = 0;
    let mut nleft: usize = dsize;
    if nleft != 0 {
        loop
            invariant_except_break
                d == s,
                s <= n,
                s < dsize,
                nleft == dsize - s,
            invariant
                strlen_is(src@, n),
                dsize != 0,
                (if n < dsize - 1 { n } else { dsize - 1 }) < dst0.len(),
                dst@.len() == dst0.len(),
                d <= s,
                forall|j: int| 0 <= j < d ==> dst@[j] == src@[j],
                forall|j: int| d <= j < dst0.len() ==> dst@[j] == dst0[j],
            ensures
                (nleft == 0 && s == dsize - 1 && s <= n && d == s) || (nleft != 0 && s == n + 1
                    && d == s && nleft == dsize - s),
            decreases dsize - s,
        {
            nleft = nleft - 1;
            if nleft == 0 {
                break ;
            }
            let c = src[s];
            dst[d] = c;
            d = d + 1;
            s = s + 1;
            if c == 0 {
                break ;
            }
        }
    }
    let ghost k = if n < dsize - 1 {
        n
    } else {
        dsize - 1
    };
    if nleft == 0 {
        if dsize != 0 {
            dst[d] = 0;
        }
        loop
            invariant_except_break
                s <= n,
            invariant
                strlen_is(src@, n),
                s <= n + 1,
                dst@.len() == dst0.len(),
                dsize == 0 ==> dst@ == dst0,
                dsize != 0 ==> d == k && dst@[k] == 0,
                forall|j: int| 0 <= j < d ==> dst@[j] == src@[j],
                forall|j: int| d < j < dst0.len() ==> dst@[j] == dst0[j],
            ensures
                s == n + 1,
            decreases n + 1 - s,
        {
            let c = src[s];
            s = s + 1;
            if c == 0 {
                break ;
            }
        }
    }
    let offset = wrapping_offset_from(s, osrc, 1);
    proof {
        if dsize != 0 {
            assert(dst@.subrange(0, k) =~= src@.subrange(0, k));
            assert(dst@.subrange(k + 1, dst@.len() as int) =~= dst0.subrange(
                k + 1,
                dst0.len() as int,
            ));
        } else {
            assert(dst@ =~= dst0);
        }
    }
    // The offset is one past the string's NUL; as in C, one is taken off it
    // in a `long`.
    let len = (offset as i64).wrapping_sub(1) as usize;
    proof {
        let ss = s;
        assert(ss >= 1 ==> ((ss as isize) as i64).wrapping_sub(1) as usize == ss - 1) by (bit_vector);
    }
    len
}

} // verus!
