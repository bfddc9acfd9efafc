//! Combinators that match sequences of elements in a text.
//!
//! A parser here is a function of the text and of a position in it. It either matches, giving
//! its value and the position right after what it matched, or fails, giving the position it
//! reached: a failure at the very position where the parser started is a *silent rejection*,
//! which lets the caller try something else, while a failure further on is an *error*, which
//! the caller passes on as it is.
//!
//! Between the elements of a sequence, and before its separators, blanks (ASCII whitespace) are
//! skipped, as the default parsing state does.

use vstd::prelude::*;

verus! {

/// Why a sequence of elements was not matched.
#[derive(Clone, Copy, PartialEq, Eq, Structural, Hash, Debug)]
pub enum ParseError {
    /// Only `found` elements matched where at least `min` were needed.
    NotEnough { min: usize, found: usize },
    /// An element or a separator failed with an error, at position `at`.
    Failed { at: usize },
}

/// An ASCII whitespace character: space, tab, line feed, form feed or carriage return.
pub open spec fn is_blank(c: char) -> bool {
    c == ' ' || c == '\t' || c == '\n' || c == '\x0C' || c == '\r'
}

/// The position after the blanks that start at `at` in `text`.
pub open spec fn after_blanks(text: Seq<char>, at: int) -> int
    decreases text.len() - at,
{
    if 0 <= at < text.len() && is_blank(text[at]) {
        after_blanks(text, at + 1)
    } else {
        at
    }
}

/// The blanks from `at` lead at most to the end of the text, and never back.
proof fn lemma_after_blanks(text: Seq<char>, at: int)
    ensures
        at <= after_blanks(text, at),
        at <= text.len() ==> after_blanks(text, at) <= text.len(),
    decreases text.len() - at,
{
    if 0 <= at < text.len() && is_blank(text[at]) {
        lemma_after_blanks(text, at + 1);
    }
}

/// Skipping blanks, read directly: from a position within the text, it passes over blanks only,
/// and stops at the end of the text or at the first character that is not blank.
pub proof fn lemma_after_blanks_stops(text: Seq<char>, at: int)
    requires
        0 <= at <= text.len(),
    ensures
        at <= after_blanks(text, at) <= text.len(),
        forall|k: int| at <= k < after_blanks(text, at) ==> is_blank(#[trigger] text[k]),
        after_blanks(text, at) == text.len() || !is_blank(text[after_blanks(text, at)]),
    decreases text.len() - at,
{
    if at < text.len() && is_blank(text[at]) {
        lemma_after_blanks_stops(text, at + 1);
    }
}

/// Skip the blanks from `at`, giving the position after them.
pub fn skip_blanks(input: &Vec<char>, at: usize) -> (r: usize)
    ensures
        r == after_blanks(input@, at as int),
        at <= input@.len() ==> {
            &&& at <= r <= input@.len()
            &&& forall|k: int| at <= k < r ==> is_blank(#[trigger] input@[k])
            &&& r == input@.len() || !is_blank(input@[r as int])
        },
{
    proof {
        if at <= input@.len() {
            lemma_after_blanks_stops(input@, at as int);
        }
    }
    let mut i: usize = at;
    proof {
        lemma_after_blanks(input@, at as int);
    }
    while i < input.len() && (input[i] == ' ' || input[i] == '\t' || input[i] == '\n' || input[i]
        == '\x0C' || input[i] == '\r')
        invariant
            at <= i,
            after_blanks(input@, i as int) == after_blanks(input@, at as int),
        decreases input@.len() - i,
    {
        i = i + 1;
    }
    i
}

/// Where the element after `n` matched elements ending at `at` starts: for the first one, after
/// the blanks at `at`, with `mid == at`; otherwise a separator matches with value `u` after the
/// blanks at `at`, up to `mid`, and the element starts after the blanks at `mid`.
pub open spec fn next_start<U, S>(
    input: &Vec<char>,
    sep: S,
    n: int,
    at: usize,
    u: U,
    mid: usize,
    start: usize,
) -> bool where
    S: Fn(&Vec<char>, usize) -> Result<(U, usize), usize>,
 {
    &&& start == after_blanks(input@, mid as int)
    &&& if n == 0 {
        mid == at
    } else {
        call_ensures(sep, (input, after_blanks(input@, at as int) as usize), Ok((u, mid)))
    }
}

/// The `k`-th element of a run: from `before`, its separator (from the second element on) up to
/// `mid`, then the element `item` from `start` to `after`, which `cond` accepts.
pub open spec fn element_at<T, U, P, S, C>(
    input: &Vec<char>,
    elem: P,
    sep: S,
    cond: C,
    k: int,
    item: T,
    u: U,
    before: usize,
    mid: usize,
    start: usize,
    after: usize,
) -> bool where
    P: Fn(&Vec<char>, usize) -> Result<(T, usize), usize>,
    S: Fn(&Vec<char>, usize) -> Result<(U, usize), usize>,
    C: Fn(&T) -> bool,
 {
    &&& next_start(input, sep, k, before, u, mid, start)
    &&& call_ensures(elem, (input, start), Ok((item, after)))
    &&& call_ensures(cond, (&item,), true)
}

/// `items` were matched one after the other, separated by matches of `sep`: element `k` ends at
/// `ends[k + 1]`; its separator matched from `ends[k]` up to `mids[k]`, and it from `starts[k]`.
pub open spec fn matched<T, U, P, S, C>(
    input: &Vec<char>,
    elem: P,
    sep: S,
    cond: C,
    items: Seq<T>,
    seps: Seq<U>,
    mids: Seq<usize>,
    starts: Seq<usize>,
    ends: Seq<usize>,
) -> bool where
    P: Fn(&Vec<char>, usize) -> Result<(T, usize), usize>,
    S: Fn(&Vec<char>, usize) -> Result<(U, usize), usize>,
    C: Fn(&T) -> bool,
 {
    &&& seps.len() == items.len()
    &&& mids.len() == items.len()
    &&& starts.len() == items.len()
    &&& ends.len() == items.len() + 1
    &&& forall|k: int|
        0 <= k < items.len() ==> #[trigger] element_at(
            input,
            elem,
            sep,
            cond,
            k,
            items[k],
            seps[k],
            ends[k],
            mids[k],
            starts[k],
            ends[k + 1],
        )
}

/// A run of `items` matched from `pos` to `end`.
pub open spec fn run<T, U, P, S, C>(
    input: &Vec<char>,
    elem: P,
    sep: S,
    cond: C,
    pos: usize,
    items: Seq<T>,
    end: usize,
) -> bool where
    P: Fn(&Vec<char>, usize) -> Result<(T, usize), usize>,
    S: Fn(&Vec<char>, usize) -> Result<(U, usize), usize>,
    C: Fn(&T) -> bool,
 {
    exists|seps: Seq<U>, mids: Seq<usize>, starts: Seq<usize>, ends: Seq<usize>|
        #[trigger] matched(input, elem, sep, cond, items, seps, mids, starts, ends) && ends[0] == pos
            && ends.last() == end
}

/// After `n` elements ending at `at`, the next element is silently rejected, nothing having
/// been consumed since `at`: its separator rejects at `at`, or the element itself rejects at
/// `mid`, where its separator (if any) led.
pub open spec fn rejects_next<T, U, P, S>(
    input: &Vec<char>,
    elem: P,
    sep: S,
    n: int,
    at: usize,
    u: U,
    mid: usize,
    start: usize,
) -> bool where
    P: Fn(&Vec<char>, usize) -> Result<(T, usize), usize>,
    S: Fn(&Vec<char>, usize) -> Result<(U, usize), usize>,
 {
    ||| n > 0 && call_ensures(sep, (input, after_blanks(input@, at as int) as usize), Err(at))
    ||| next_start(input, sep, n, at, u, mid, start) && call_ensures(elem, (input, start), Err(mid))
}

/// After `n` elements ending at `at`, the run stops without an error: `max` elements were
/// matched, or the next separator or element was silently rejected, or the next element
/// matched but `cond` refused it.
pub open spec fn stops<T, U, P, S, C>(
    input: &Vec<char>,
    elem: P,
    sep: S,
    cond: C,
    n: int,
    at: usize,
    max: usize,
) -> bool where
    P: Fn(&Vec<char>, usize) -> Result<(T, usize), usize>,
    S: Fn(&Vec<char>, usize) -> Result<(U, usize), usize>,
    C: Fn(&T) -> bool,
 {
    ||| n == max
    ||| exists|u: U, mid: usize, start: usize|
        #[trigger] rejects_next::<T, U, P, S>(input, elem, sep, n, at, u, mid, start)
    ||| exists|u: U, mid: usize, start: usize, item: T, after: usize|
        #[trigger] next_start(input, sep, n, at, u, mid, start) && #[trigger] call_ensures(
            elem,
            (input, start),
            Ok((item, after)),
        ) && call_ensures(cond, (&item,), false)
}

/// After `n` elements ending at `at`, the next separator or element fails with an error at
/// `fail`: past `at` for the separator, past where its separator led for the element.
pub open spec fn errs<T, U, P, S>(input: &Vec<char>, elem: P, sep: S, n: int, at: usize, fail: usize) -> bool where
    P: Fn(&Vec<char>, usize) -> Result<(T, usize), usize>,
    S: Fn(&Vec<char>, usize) -> Result<(U, usize), usize>,
 {
    ||| n > 0 && call_ensures(sep, (input, after_blanks(input@, at as int) as usize), Err(fail))
        && fail != at
    ||| exists|u: U, mid: usize, start: usize|
        #[trigger] next_start(input, sep, n, at, u, mid, start) && call_ensures(
            elem,
            (input, start),
            Err(fail),
        ) && fail != mid
}

/// Match at least `min` and at most `max` elements with `elem` from `pos`, separated by matches
/// of `sep`, stopping at the first silent rejection or at the first element that `cond`
/// refuses. Blanks are skipped before each separator and each element. A separator is consumed
/// only together with the element after it, so a trailing separator is left in the text, and
/// so is a refused element. An error of `elem` or `sep` is passed on as it is, and so is a
/// rejection after blanks were skipped, since text was consumed.
///
/// On success, the result is the elements matched, in order, and the position after the last
/// of them. With `min > max` the elements can never be enough.
pub fn sep_by_while_counting<T, U, P, S, C>(
    input: &Vec<char>,
    pos: usize,
    elem: &P,
    sep: &S,
    cond: &C,
    min: usize,
    max: usize,
) -> (r: Result<(Vec<T>, usize), ParseError>) where
    P: Fn(&Vec<char>, usize) -> Result<(T, usize), usize>,
    S: Fn(&Vec<char>, usize) -> Result<(U, usize), usize>,
    C: Fn(&T) -> bool,

    requires
        forall|p: usize| call_requires(*elem, (input, p)),
        forall|p: usize| call_requires(*sep, (input, p)),
        forall|t: &T| call_requires(*cond, (t,)),
    ensures
        r matches Ok((items, end)) ==> {
            &&& min <= items@.len() <= max
            &&& run::<T, U, P, S, C>(input, *elem, *sep, *cond, pos, items@, end)
            &&& stops::<T, U, P, S, C>(input, *elem, *sep, *cond, items@.len() as int, end, max)
        },
        r matches Err(ParseError::NotEnough { min: m, found }) ==> {
            &&& m == min
            &&& found < min
            &&& exists|items: Seq<T>, end: usize|
                #[trigger] run::<T, U, P, S, C>(input, *elem, *sep, *cond, pos, items, end)
                    && items.len() == found && stops::<T, U, P, S, C>(
                    input,
                    *elem,
                    *sep,
                    *cond,
                    found as int,
                    end,
                    max,
                )
        },
        r matches Err(ParseError::Failed { at }) ==> exists|items: Seq<T>, end: usize|
            #[trigger] run::<T, U, P, S, C>(input, *elem, *sep, *cond, pos, items, end) && items.len()
                < max && errs::<T, U, P, S>(input, *elem, *sep, items.len() as int, end, at),
{
    let mut out: Vec<T> = Vec::new();
    let mut at: usize = pos;
    let mut found: usize = 0;
    let ghost mut seps: Seq<U> = Seq::empty();
    let ghost mut mids: Seq<usize> = Seq::empty();
    let ghost mut starts: Seq<usize> = Seq::empty();
    let ghost mut ends: Seq<usize> = seq![pos];
    loop
        invariant
            forall|p: usize| call_requires(*elem, (input, p)),
            forall|p: usize| call_requires(*sep, (input, p)),
            forall|t: &T| call_requires(*cond, (t,)),
            found == out@.len(),
            found <= max,
            matched(input, *elem, *sep, *cond, out@, seps, mids, starts, ends),
            ends[0] == pos,
            ends.last() == at,
        ensures
            found == out@.len(),
            found <= max,
            matched(input, *elem, *sep, *cond, out@, seps, mids, starts, ends),
            ends[0] == pos,
            ends.last() == at,
            stops::<T, U, P, S, C>(input, *elem, *sep, *cond, found as int, at, max),
        decreases max - found,
    {
        if found == max {
            break;
        }
        let mid: usize;
        let ghost mut u: U = vstd::pervasive::arbitrary();
        if found == 0 {
            mid = at;
        } else {
            let b = skip_blanks(input, at);
            match sep(input, b) {
                Ok((v, s)) => {
                    mid = s;
                    proof {
                        u = v;
                    }
                },
                Err(f) => {
                    if f != at {
                        proof {
                            assert(matched(input, *elem, *sep, *cond, out@, seps, mids, starts, ends));
                            assert(run::<T, U, P, S, C>(input, *elem, *sep, *cond, pos, out@, at));
                            assert(errs::<T, U, P, S>(input, *elem, *sep, found as int, at, f));
                        }
                        return Err(ParseError::Failed { at: f });
                    }
                    proof {
                        assert(rejects_next::<T, U, P, S>(input, *elem, *sep, found as int, at, u, at, at));
                    }
                    break;
                },
            }
        }
        let start = skip_blanks(input, mid);
        proof {
            assert(next_start(input, *sep, found as int, at, u, mid, start));
        }
        match elem(input, start) {
            Ok((t, e)) => {
                if !cond(&t) {
                    proof {
                        assert(call_ensures(*elem, (input, start), Ok((t, e))));
                    }
                    break;
                }
                proof {
                    let k = found as int;
                    assert(element_at(input, *elem, *sep, *cond, k, t, u, at, mid, start, e));
                    let items2 = out@.push(t);
                    let seps2 = seps.push(u);
                    let mids2 = mids.push(mid);
                    let starts2 = starts.push(start);
                    let ends2 = ends.push(e);
                    assert forall|j: int| 0 <= j < items2.len() implies #[trigger] element_at(
                        input,
                        *elem,
                        *sep,
                        *cond,
                        j,
                        items2[j],
                        seps2[j],
                        ends2[j],
                        mids2[j],
                        starts2[j],
                        ends2[j + 1],
                    ) by {
                        if j < k {
                            assert(element_at(
                                input,
                                *elem,
                                *sep,
                                *cond,
                                j,
                                out@[j],
                                seps[j],
                                ends[j],
                                mids[j],
                                starts[j],
                                ends[j + 1],
                            ));
                        }
                    }
                    seps = seps2;
                    mids = mids2;
                    starts = starts2;
                    ends = ends2;
                }
                out.push(t);
                at = e;
                found = found + 1;
            },
            Err(f) => {
                if f != mid {
                    proof {
                        assert(run::<T, U, P, S, C>(input, *elem, *sep, *cond, pos, out@, at));
                        assert(errs::<T, U, P, S>(input, *elem, *sep, found as int, at, f));
                    }
                    return Err(ParseError::Failed { at: f });
                }
                proof {
                    assert(rejects_next::<T, U, P, S>(input, *elem, *sep, found as int, at, u, mid, start));
                }
                break;
            },
        }
    }
    proof {
        assert(run::<T, U, P, S, C>(input, *elem, *sep, *cond, pos, out@, at));
    }
    if found < min {
        Err(ParseError::NotEnough { min, found })
    } else {
        Ok((out, at))
    }
}

/// Try `first` at `pos`, and `second` only where `first` rejects silently. The result is the
/// one of `first` when it matches or fails with an error, and otherwise the one of `second`:
/// a failure at `pos` when both reject.
pub fn or<T, P, Q>(input: &Vec<char>, pos: usize, first: &P, second: &Q) -> (r: Result<(T, usize), usize>) where
    P: Fn(&Vec<char>, usize) -> Result<(T, usize), usize>,
    Q: Fn(&Vec<char>, usize) -> Result<(T, usize), usize>,

    requires
        call_requires(*first, (input, pos)),
        call_requires(*second, (input, pos)),
    ensures
        (call_ensures(*first, (input, pos), r) && r != Err::<(T, usize), usize>(pos)) || (
        call_ensures(*first, (input, pos), Err::<(T, usize), usize>(pos)) && call_ensures(
            *second,
            (input, pos),
            r,
        )),
{
    match first(input, pos) {
        Err(f) => {
            if f == pos {
                second(input, pos)
            } else {
                Err(f)
            }
        },
        Ok(m) => Ok(m),
    }
}

/// `elem` matched `items` one right after the other, element `k` from `ends[k]` to
/// `ends[k + 1]`.
pub open spec fn repeated<T, P>(input: &Vec<char>, elem: P, items: Seq<T>, ends: Seq<usize>) -> bool where
    P: Fn(&Vec<char>, usize) -> Result<(T, usize), usize>,
 {
    &&& ends.len() == items.len() + 1
    &&& forall|k: int|
        0 <= k < items.len() ==> #[trigger] call_ensures(elem, (input, ends[k]), Ok((items[k], ends[k + 1])))
}

/// Skip the matches of `elem` from `pos` for as long as it matches, and give the position after
/// the last of them. An error of `elem` is passed on as it is. Each match must consume some
/// text, or the skipping would never end.
pub fn skip<T, P>(input: &Vec<char>, pos: usize, elem: &P) -> (r: Result<usize, ParseError>) where
    P: Fn(&Vec<char>, usize) -> Result<(T, usize), usize>,

    requires
        pos <= input@.len(),
        forall|p: usize| call_requires(*elem, (input, p)),
        forall|p: usize, t: T, e: usize|
            #[trigger] call_ensures(*elem, (input, p), Ok((t, e))) ==> p < e <= input@.len(),
    ensures
        r matches Ok(end) ==> exists|items: Seq<T>, ends: Seq<usize>|
            #[trigger] repeated(input, *elem, items, ends) && ends[0] == pos && ends.last() == end
                && call_ensures(*elem, (input, end), Err(end)),
        r matches Err(e) ==> e matches ParseError::Failed { at } && exists|items: Seq<T>, ends: Seq<usize>|
            #[trigger] repeated(input, *elem, items, ends) && ends[0] == pos && call_ensures(
                *elem,
                (input, ends.last()),
                Err(at),
            ) && at != ends.last(),
{
    let mut at: usize = pos;
    let ghost mut items: Seq<T> = Seq::empty();
    let ghost mut ends: Seq<usize> = seq![pos];
    loop
        invariant
            at <= input@.len(),
            forall|p: usize| call_requires(*elem, (input, p)),
            forall|p: usize, t: T, e: usize|
                #[trigger] call_ensures(*elem, (input, p), Ok((t, e))) ==> p < e <= input@.len(),
            repeated(input, *elem, items, ends),
            ends[0] == pos,
            ends.last() == at,
        decreases input@.len() - at,
    {
        match elem(input, at) {
            Ok((t, e)) => {
                proof {
                    let items2 = items.push(t);
                    let ends2 = ends.push(e);
                    assert forall|k: int| 0 <= k < items2.len() implies #[trigger] call_ensures(
                        *elem,
                        (input, ends2[k]),
                        Ok((items2[k], ends2[k + 1])),
                    ) by {
                        if k < items.len() {
                            assert(call_ensures(*elem, (input, ends[k]), Ok((items[k], ends[k + 1]))));
                        }
                    }
                    items = items2;
                    ends = ends2;
                }
                at = e;
            },
            Err(f) => {
                proof {
                    assert(repeated(input, *elem, items, ends));
                }
                if f == at {
                    return Ok(at);
                }
                return Err(ParseError::Failed { at: f });
            },
        }
    }
}

} // verus!
