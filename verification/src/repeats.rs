//! What the match models promise: a repeat is found however far back it lies, and
//! ridden for as long as it goes on.

use vstd::prelude::*;
use crate::hashing;
use crate::match_model;
use crate::match_model::MatchView;

verus! {

/// Confidence after `count` hits: half of the way to certainty for one hit, two thirds
/// for two, and so on, rounded down.
pub proof fn law_confidence_is_the_share(count: nat)
    ensures
        ({
            let c = match_model::confidence(count) - 2048;
            c * (count + 1) <= 2047 * count < (c + 1) * (count + 1)
        }),
{
    let c = 2047 * count / (count + 1);
    assert(c * (count + 1) <= 2047 * count < (c + 1) * (count + 1)) by (nonlinear_arith)
        requires
            c == 2047 * count / (count + 1),
    ;
}

/// The shared past is as long as the bytes agree, and ends only where they differ,
/// where the text begins, or at the cap.
pub proof fn law_past_is_shared(buf: Seq<u8>, cand: nat, cur: nat, cap: nat)
    requires
        cand <= buf.len(),
        cur <= buf.len(),
    ensures
        ({
            let k = match_model::shared_past(buf, cand, cur, cap) as int;
            &&& 0 <= k <= cap && k <= cand && k <= cur
            &&& forall|i: int| 1 <= i <= k ==> #[trigger] buf[cand - i] == buf[cur - i]
            &&& k == cap || k == cand || k == cur || buf[cand - 1 - k] != buf[cur - 1 - k]
        }),
    decreases cap,
{
    if cap > 0 && cand > 0 && cur > 0 && buf[cand - 1] == buf[cur - 1] {
        let a = (cand - 1) as nat;
        let b = (cur - 1) as nat;
        let c = (cap - 1) as nat;
        law_past_is_shared(buf, a, b, c);
        let k = match_model::shared_past(buf, cand, cur, cap) as int;
        assert forall|i: int| 1 <= i <= k implies #[trigger] buf[cand - i] == buf[cur - i] by {
            if i > 1 {
                assert(buf[a - (i - 1)] == buf[b - (i - 1)]);
            }
        }
    }
}

/// A chain begins at its head, wherever in the text before the present place that lies;
/// each further position is the one that was the head before it; and the chain ends
/// only where there is no earlier one, or after eight.
pub proof fn law_chain_is_complete(prev: Seq<u32>, cand: nat, n: nat, fuel: nat)
    ensures
        ({
            let c = match_model::chain(prev, cand, n, fuel);
            &&& c.len() <= fuel
            &&& 0 < cand < n && fuel > 0 ==> c.len() >= 1 && c[0] == cand
            &&& cand == 0 || cand >= n ==> c.len() == 0
            &&& forall|i: int|
                0 <= i < c.len() - 1 ==> #[trigger] c[i + 1] == prev[c[i] as int % 0x10_0000]
            &&& 0 < c.len() < fuel ==> {
                let last = c[c.len() - 1];
                let np = prev[last as int % 0x10_0000];
                np == 0 || np >= last
            }
        }),
    decreases fuel,
{
    let c = match_model::chain(prev, cand, n, fuel);
    if 0 < cand < n && fuel > 0 {
        let np = prev[(cand % 0x10_0000) as int] as nat;
        let next = if np >= cand { 0 } else { np };
        let f = (fuel - 1) as nat;
        law_chain_is_complete(prev, next, n, f);
        let rest = match_model::chain(prev, next, n, f);
        assert(c == seq![cand] + rest);
        assert(c.skip(1) =~= rest);
        assert forall|i: int| 0 <= i < c.len() - 1 implies #[trigger] c[i + 1] == prev[c[i] as int
            % 0x10_0000] by {
            if i > 0 {
                assert(rest[(i - 1) + 1] == prev[rest[i - 1] as int % 0x10_0000]);
                assert(c[i + 1] == rest[i] && c[i] == rest[i - 1]);
            } else {
                assert(c[1] == rest[0]);
            }
        }
        if 0 < c.len() < fuel {
            if rest.len() > 0 {
                assert(c[c.len() - 1] == rest[rest.len() - 1]);
            }
        }
    }
}

/// The slot of a context is made of its bytes, wherever in a text it stands.
pub open spec fn ends_alike(a: Seq<u8>, b: Seq<u8>, k: nat) -> bool {
    &&& k <= a.len()
    &&& k <= b.len()
    &&& forall|i: int| 1 <= i <= k ==> #[trigger] a[a.len() - i] == b[b.len() - i]
}

/// The same context has the same slot, wherever it stands in whatever text.
pub proof fn law_context_has_one_slot(m: MatchView, o: MatchView, a: Seq<u8>, b: Seq<u8>)
    requires
        m.minlen == o.minlen,
        ends_alike(a, b, m.minlen),
    ensures
        m.slot(a) == o.slot(b),
        m.slot(a) == hashing::hash_context(
            a.subrange(a.len() - m.minlen, a.len() as int),
        ) as int % 0x10_0000,
{
    let k = m.minlen;
    let s = a.subrange(a.len() - k, a.len() as int);
    let t = b.subrange(b.len() - k, b.len() as int);
    assert forall|i: int| 0 <= i < k implies s[i] == t[i] by {
        assert(a[a.len() - (k - i)] == b[b.len() - (k - i)]);
    }
    assert(s =~= t);
}

/// A match that holds is ridden on: the next byte of the earlier text is expected, and
/// the trust in it grows with the length of the ride, however long it is.
pub proof fn law_match_is_ridden(m: MatchView, buf: Seq<u8>, byte: u8, tab: Seq<i32>)
    requires
        m.on,
        m.ptr + 1 < buf.len(),
        buf[m.ptr as int] == byte,
    ensures
        ({
            let q = m.updated(buf, byte, tab);
            &&& q.on
            &&& q.ptr == m.ptr + 1
            &&& q.len == (if m.len < 0xffff_ffff { m.len + 1 } else { m.len })
            &&& q.pb == buf[m.ptr as int + 1]
            &&& q.mag == tab[match_model::confidence(q.len) as int]
        }),
{
}

/// A match that fails is given up: the model is silent, unless it found another one.
pub proof fn law_broken_match_is_dropped(m: MatchView, buf: Seq<u8>, byte: u8, tab: Seq<i32>)
    requires
        !m.on || buf[m.ptr as int] != byte,
    ensures
        ({
            let q = m.updated(buf, byte, tab);
            &&& !q.on ==> q.mag == 0
            &&& q.on ==> q.len <= 8
            &&& q.on ==> 0 < q.ptr < buf.len() && q.pb == buf[q.ptr as int] && buf[q.ptr - 1]
                == buf[buf.len() - 1]
            &&& buf.len() < m.minlen ==> !q.on
        }),
{
    let n = buf.len();
    let s = m.followed(buf, byte);
    let c = match_model::chain(m.prev, m.head[m.slot(buf) as int] as nat, n, 8);
    assert(s.slot(buf) == m.slot(buf));
    match_model::law_longest_past_wins(buf, n, c);
    let r = match_model::longest(buf, n, c, (0, 0));
    if r.1 > 0 {
        let i = choose|i: int| #[trigger] match_model::wins(buf, n, c, i, r);
        law_chain_positive(m.prev, m.head[m.slot(buf) as int] as nat, n, 8, i);
        law_past_is_shared(buf, r.0, n, 64);
        assert(buf[r.0 - 1] == buf[n - 1]);
    }
}

/// Every place is noted: it becomes the head of the chain of its context, the head
/// before it follows in the chain, and all else stays as it was.
pub proof fn law_place_is_noted(m: MatchView, buf: Seq<u8>, byte: u8, tab: Seq<i32>)
    requires
        m.head.len() == 0x10_0000,
        m.prev.len() == 0x10_0000,
    ensures
        ({
            let q = m.updated(buf, byte, tab);
            let n = buf.len() as int;
            &&& q.minlen == m.minlen
            &&& q.head.len() == 0x10_0000
            &&& q.prev.len() == 0x10_0000
            &&& n >= m.minlen ==> {
                let h = m.slot(buf) as int;
                &&& q.head[h] == n as u32
                &&& q.prev[n % 0x10_0000] == m.head[h]
                &&& forall|i: int|
                    0 <= i < 0x10_0000 && i != h ==> #[trigger] q.head[i] == m.head[i]
                &&& forall|i: int|
                    0 <= i < 0x10_0000 && i != n % 0x10_0000 ==> #[trigger] q.prev[i] == m.prev[i]
            }
            &&& n < m.minlen ==> q.head == m.head && q.prev == m.prev
        }),
{
    let q = m.updated(buf, byte, tab);
    let n = buf.len() as int;
    if n >= m.minlen {
        let h = m.slot(buf) as int;
        assert(0 <= h < 0x10_0000);
        let s = m.followed(buf, byte).acquired(buf);
        assert(s.slot(buf) == m.slot(buf));
        assert(q.head == m.head.update(h, n as u32));
        assert(q.prev == m.prev.update(n % 0x10_0000, m.head[h]));
    }
}

/// `best` is one of the candidates; none has a longer past than it, and none before it
/// one that is as long.
pub open spec fn best_of(buf: Seq<u8>, cands: Seq<nat>, best: nat) -> bool {
    let past = match_model::shared_past(buf, best, buf.len(), 64);
    exists|i: int|
        {
            &&& 0 <= i < cands.len()
            &&& #[trigger] cands[i] == best
            &&& forall|j: int|
                0 <= j < cands.len() ==> match_model::shared_past(
                    buf,
                    #[trigger] cands[j],
                    buf.len(),
                    64,
                ) <= past
            &&& forall|j: int|
                0 <= j < i ==> match_model::shared_past(
                    buf,
                    #[trigger] cands[j],
                    buf.len(),
                    64,
                ) < past
        }
}

/// A model without a match to ride, for whose context an earlier place is the head of
/// the chain, however far back, finds a match if the byte before that place is the last
/// byte of the text. It goes on behind a place on the chain whose past agrees with the
/// present the longest, the latest of these if there are several, and expects the byte
/// that stands there. A fresh match is trusted like one of up to eight bytes.
pub proof fn law_repeat_is_found(m: MatchView, buf: Seq<u8>, byte: u8, tab: Seq<i32>, at: nat)
    requires
        m.head.len() == 0x10_0000,
        buf.len() >= m.minlen,
        !m.on || buf[m.ptr as int] != byte,
        m.head[m.slot(buf) as int] == at,
        0 < at < buf.len(),
        buf[at - 1] == buf[buf.len() - 1],
    ensures
        ({
            let q = m.updated(buf, byte, tab);
            let n = buf.len();
            &&& q.on
            &&& 0 < q.ptr <= at
            &&& match_model::shared_past(buf, q.ptr, n, 64) >= match_model::shared_past(
                buf,
                at,
                n,
                64,
            ) >= 1
            &&& buf[q.ptr - 1] == buf[n - 1]
            &&& best_of(buf, match_model::chain(m.prev, at, n, 8), q.ptr)
            &&& q.pb == buf[q.ptr as int]
            &&& q.len == (if match_model::shared_past(buf, q.ptr, n, 64) < 8 {
                match_model::shared_past(buf, q.ptr, n, 64)
            } else {
                8
            })
            &&& q.mag == tab[match_model::confidence(q.len) as int]
        }),
{
    let n = buf.len();
    let s = m.followed(buf, byte);
    assert(s.slot(buf) == m.slot(buf));
    let c = match_model::chain(m.prev, at, n, 8);
    law_chain_is_complete(m.prev, at, n, 8);
    match_model::law_longest_past_wins(buf, n, c);
    let r = match_model::longest(buf, n, c, (0, 0));
    assert(match_model::shared_past(buf, at, n, 64) >= 1);
    assert(match_model::shared_past(buf, c[0], n, 64) <= r.1);
    let i = choose|i: int| #[trigger] match_model::wins(buf, n, c, i, r);
    if i > 0 {
        match_model::law_chain_goes_back(m.prev, at, n, 8, 0, i);
    }
    law_chain_positive(m.prev, at, n, 8, i);
    law_past_is_shared(buf, r.0, n, 64);
    let q = m.updated(buf, byte, tab);
    assert(s.acquired(buf).on && s.acquired(buf).ptr == r.0);
    assert(buf[r.0 - 1] == buf[n - 1]);
    assert(c[i] == q.ptr);
    assert(best_of(buf, c, q.ptr));
}

/// Every position on a chain lies inside the text, behind its first byte.
pub proof fn law_chain_positive(prev: Seq<u32>, cand: nat, n: nat, fuel: nat, i: int)
    requires
        0 <= i < match_model::chain(prev, cand, n, fuel).len(),
    ensures
        0 < match_model::chain(prev, cand, n, fuel)[i] < n,
    decreases fuel,
{
    if i > 0 {
        let np = prev[(cand % 0x10_0000) as int] as nat;
        let next = if np >= cand { 0 } else { np };
        law_chain_positive(prev, next, n, (fuel - 1) as nat, i - 1);
        assert(match_model::chain(prev, cand, n, fuel)[i] == match_model::chain(
            prev,
            next,
            n,
            (fuel - 1) as nat,
        )[i - 1]);
    }
}

/// A text that comes back is found, at any distance: where a context was noted, and no
/// later place has taken its slot, a model without a match finds one when the same
/// context comes again. Places beyond the 32 bits in which they are noted are left out.
pub proof fn law_far_repeat_is_found(
    early: MatchView,
    then: Seq<u8>,
    m: MatchView,
    buf: Seq<u8>,
    tab: Seq<i32>,
)
    requires
        early.head.len() == 0x10_0000,
        early.prev.len() == 0x10_0000,
        m.head.len() == 0x10_0000,
        m.minlen == early.minlen,
        m.minlen >= 1,
        then.len() < buf.len(),
        then.len() <= 0xffff_ffff,
        buf.take(then.len() as int) == then,
        ends_alike(then, buf, m.minlen),
        // the chain of the context still begins where it was noted
        m.head[early.slot(then) as int] == early.updated(
            then,
            then[then.len() - 1],
            tab,
        ).head[early.slot(then) as int],
        !m.on || buf[m.ptr as int] != buf[buf.len() - 1],
    ensures
        ({
            let q = m.updated(buf, buf[buf.len() - 1], tab);
            &&& q.on
            &&& q.pb == buf[q.ptr as int]
            &&& match_model::shared_past(buf, q.ptr, buf.len(), 64) >= (if m.minlen < 64 {
                m.minlen
            } else {
                64
            })
        }),
{
    let n = buf.len();
    let at = then.len();
    law_context_has_one_slot(early, m, then, buf);
    law_place_is_noted(early, then, then[at - 1], tab);
    assert(then[at - 1] == buf[n - 1]);
    assert(buf[at - 1] == then[at - 1]);
    law_repeat_is_found(m, buf, buf[n - 1], tab, at);
    law_past_is_shared(buf, at, n, 64);
    let k = match_model::shared_past(buf, at, n, 64) as int;
    if k < m.minlen && k < 64 {
        assert(then[at - (k + 1)] == buf[n - (k + 1)]);
        assert(buf[at - (k + 1)] == then[at - (k + 1)]);
    }
}

/// A model rides a repeat to its end: for as long as the text goes on as it did behind
/// the earlier place, every byte of it is expected.
pub proof fn law_repeat_is_ridden(m: MatchView, buf: Seq<u8>, more: nat, tab: Seq<i32>)
    requires
        m.on,
        m.ptr < buf.len() - more,
        forall|i: int|
            0 <= i < more ==> #[trigger] buf[buf.len() - more + i] == buf[m.ptr as int + i],
    ensures
        ({
            let q = followed_through(m, buf, more, tab);
            &&& q.on
            &&& q.ptr == m.ptr + more
            &&& more > 0 ==> q.pb == buf[m.ptr as int + more]
        }),
    decreases more,
{
    if more > 0 {
        let k = (more - 1) as nat;
        let n = buf.len() as int;
        let shorter = buf.take(n - 1);
        assert forall|i: int| 0 <= i < k implies #[trigger] shorter[shorter.len() - k + i]
            == shorter[m.ptr as int + i] by {
            assert(buf[buf.len() - more + i] == buf[m.ptr as int + i]);
        }
        law_repeat_is_ridden(m, shorter, k, tab);
        let q = followed_through(m, shorter, k, tab);
        assert(buf[n - more + k] == buf[m.ptr as int + k]);
        law_match_is_ridden(q, buf, buf[n - 1], tab);
    }
}

/// The model after the last `more` bytes of `buf`.
pub open spec fn followed_through(m: MatchView, buf: Seq<u8>, more: nat, tab: Seq<i32>) -> MatchView
    decreases more,
{
    if more == 0 {
        m
    } else {
        followed_through(m, buf.take(buf.len() - 1), (more - 1) as nat, tab).updated(
            buf,
            buf[buf.len() - 1],
            tab,
        )
    }
}

} // verus!
