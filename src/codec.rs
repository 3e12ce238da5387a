//! Encoding and decoding of packets. The layout is MessagePack as the serde
//! convention for these types has it: a record is an array of its fields in
//! order, a variant without data is its name as a string, and a variant with
//! data is a map of one entry from its name to the data.

use vstd::prelude::*;
use crate::entities::{Bet, BetView, Wager, WagerOption, WagerOptionView, WagerView, bets_view, options_view, wagers_view};
use crate::network::{Packet, PacketView, Request, RequestView, Response, ResponseView};
use crate::wire::{
    array_header, begins, is_tag, lemma_array_header_unique, lemma_begins_first, lemma_begins_self, lemma_peel,
    lemma_peel_at, lemma_rest_rest, lemma_short_str_fits, lemma_span_prefix, lemma_str_unique, lemma_uint_unique,
    lemma_variant_at, lemma_variant_unique, parse_array_header, parse_str, parse_uint, rest, str_bytes, str_fits,
    uint_bytes, variant_bytes, write_array_header, write_str, write_uint,
};

verus! {

/// A value with a wire encoding, and a reader and a writer that meet it exactly.
pub trait Wire: View + Sized {
    /// The value can be encoded: its strings and lists are short enough for their headers.
    spec fn fits(v: Self::V) -> bool;

    spec fn encoding(v: Self::V) -> Seq<u8>;

    /// Two values whose encodings both begin `s` are the same value.
    proof fn lemma_unique(x: Self::V, y: Self::V, s: Seq<u8>)
        requires
            Self::fits(x),
            Self::fits(y),
            begins(s, Self::encoding(x)),
            begins(s, Self::encoding(y)),
        ensures
            x == y,
    ;

    /// Appends the encoding; reports `false` for a value that does not fit.
    fn write(&self, out: &mut Vec<u8>) -> (ok: bool)
        ensures
            ok == Self::fits(self@),
            ok ==> final(out)@ == old(out)@ + Self::encoding(self@),
    ;

    /// Reads a value at `pos`, and the position after it.
    fn parse(b: &[u8], pos: usize) -> (r: Option<(Self, usize)>)
        requires
            pos <= b@.len(),
        ensures
            match r {
                Some((v, end)) => pos < end <= b@.len() && Self::fits(v@) && b@.subrange(pos as int, end as int)
                    == Self::encoding(v@),
                None => forall|x: Self::V| Self::fits(x) ==> !begins(rest(b@, pos as int), (#[trigger] Self::encoding(x))),
            },
    ;
}

pub open spec fn items_view<T: View>(xs: Seq<T>) -> Seq<T::V> {
    xs.map_values(|t: T| t@)
}

pub open spec fn items_fit<T: Wire>(xs: Seq<T::V>) -> bool {
    xs.len() < 4294967296 && forall|k: int| 0 <= k < xs.len() ==> T::fits(#[trigger] xs[k])
}

/// The encodings of `xs` one after the other.
pub open spec fn items_bytes<T: Wire>(xs: Seq<T::V>) -> Seq<u8>
    decreases xs.len(),
{
    if xs.len() == 0 {
        seq![]
    } else {
        T::encoding(xs[0]) + items_bytes::<T>(xs.drop_first())
    }
}

/// A list: an array header, then its items.
pub open spec fn list_bytes<T: Wire>(xs: Seq<T::V>) -> Seq<u8> {
    array_header(xs.len()) + items_bytes::<T>(xs)
}

proof fn lemma_items_push<T: Wire>(xs: Seq<T::V>, x: T::V)
    ensures
        items_bytes::<T>(xs.push(x)) == items_bytes::<T>(xs) + T::encoding(x),
    decreases xs.len(),
{
    if xs.len() == 0 {
        assert(xs.push(x).drop_first() =~= Seq::<T::V>::empty());
        assert(xs.push(x)[0] == x);
        assert(items_bytes::<T>(Seq::<T::V>::empty()) == Seq::<u8>::empty());
        assert(items_bytes::<T>(xs.push(x)) =~= items_bytes::<T>(xs) + T::encoding(x));
    } else {
        lemma_items_push::<T>(xs.drop_first(), x);
        assert(xs.push(x).drop_first() =~= xs.drop_first().push(x));
        assert(items_bytes::<T>(xs.push(x)) =~= items_bytes::<T>(xs) + T::encoding(x));
    }
}

proof fn lemma_items_unique<T: Wire>(xs: Seq<T::V>, ys: Seq<T::V>, s: Seq<u8>)
    requires
        xs.len() == ys.len(),
        forall|k: int| 0 <= k < xs.len() ==> T::fits(#[trigger] xs[k]),
        forall|k: int| 0 <= k < ys.len() ==> T::fits(#[trigger] ys[k]),
        begins(s, items_bytes::<T>(xs)),
        begins(s, items_bytes::<T>(ys)),
    ensures
        xs == ys,
    decreases xs.len(),
{
    if xs.len() > 0 {
        lemma_peel(T::encoding(xs[0]), items_bytes::<T>(xs.drop_first()), s);
        lemma_peel(T::encoding(ys[0]), items_bytes::<T>(ys.drop_first()), s);
        assert(T::fits(xs[0]));
        assert(T::fits(ys[0]));
        T::lemma_unique(xs[0], ys[0], s);
        let s1 = s.subrange(T::encoding(xs[0]).len() as int, s.len() as int);
        assert forall|k: int| 0 <= k < xs.drop_first().len() implies T::fits(#[trigger] xs.drop_first()[k]) by {
            assert(xs.drop_first()[k] == xs[k + 1]);
        }
        assert forall|k: int| 0 <= k < ys.drop_first().len() implies T::fits(#[trigger] ys.drop_first()[k]) by {
            assert(ys.drop_first()[k] == ys[k + 1]);
        }
        lemma_items_unique::<T>(xs.drop_first(), ys.drop_first(), s1);
        assert forall|k: int| 0 <= k < xs.len() implies xs[k] == ys[k] by {
            if k > 0 {
                assert(xs[k] == xs.drop_first()[k - 1]);
                assert(ys[k] == ys.drop_first()[k - 1]);
            }
        }
        assert(xs =~= ys);
    } else {
        assert(xs =~= ys);
    }
}

/// Two lists whose encodings both begin `s` are the same list.
pub proof fn lemma_list_unique<T: Wire>(xs: Seq<T::V>, ys: Seq<T::V>, s: Seq<u8>)
    requires
        items_fit::<T>(xs),
        items_fit::<T>(ys),
        begins(s, list_bytes::<T>(xs)),
        begins(s, list_bytes::<T>(ys)),
    ensures
        xs == ys,
{
    lemma_peel(array_header(xs.len()), items_bytes::<T>(xs), s);
    lemma_peel(array_header(ys.len()), items_bytes::<T>(ys), s);
    lemma_array_header_unique(xs.len(), ys.len(), s);
    let s1 = s.subrange(array_header(xs.len()).len() as int, s.len() as int);
    lemma_items_unique::<T>(xs, ys, s1);
}

/// Appends the encoding of a list; reports `false` where it does not fit.
pub fn write_list<T: Wire>(out: &mut Vec<u8>, xs: &Vec<T>) -> (ok: bool)
    ensures
        ok == items_fit::<T>(items_view(xs@)),
        ok ==> final(out)@ == old(out)@ + list_bytes::<T>(items_view(xs@)),
{
    let ghost v = items_view(xs@);
    let n = xs.len();
    if n as u64 >= 4294967296 {
        return false;
    }
    write_array_header(out, n);
    let ghost start = out@;
    let mut i: usize = 0;
    while i < n
        invariant
            n == xs@.len(),
            v == items_view(xs@),
            i <= n,
            out@ == start + items_bytes::<T>(v.take(i as int)),
            forall|k: int| 0 <= k < i ==> T::fits(#[trigger] v[k]),
        decreases n - i,
    {
        let ghost before = out@;
        let ok = xs[i].write(out);
        if !ok {
            assert(!T::fits(v[i as int]));
            return false;
        }
        proof {
            lemma_items_push::<T>(v.take(i as int), v[i as int]);
            assert(v.take(i + 1) =~= v.take(i as int).push(v[i as int]));
        }
        i += 1;
    }
    assert(v.take(n as int) =~= v);
    assert(final(out)@ =~= old(out)@ + list_bytes::<T>(v));
    true
}

/// Reads a list at `pos`, and the position after it.
pub fn parse_list<T: Wire>(b: &[u8], pos: usize) -> (r: Option<(Vec<T>, usize)>)
    requires
        pos <= b@.len(),
    ensures
        match r {
            Some((v, end)) => pos < end <= b@.len() && items_fit::<T>(items_view(v@)) && b@.subrange(
                pos as int,
                end as int,
            ) == list_bytes::<T>(items_view(v@)),
            None => forall|xs: Seq<T::V>|
                items_fit::<T>(xs) ==> !begins(rest(b@, pos as int), (#[trigger] list_bytes::<T>(xs))),
        },
{
    let (n, start) = match parse_array_header(b, pos) {
        Some(h) => h,
        None => {
            assert forall|xs: Seq<T::V>| items_fit::<T>(xs) implies !begins(rest(b@, pos as int), (#[trigger] list_bytes::<T>(xs))) by {
                if begins(rest(b@, pos as int), list_bytes::<T>(xs)) {
                    lemma_peel(array_header(xs.len()), items_bytes::<T>(xs), rest(b@, pos as int));
                }
            }
            return None;
        },
    };
    proof {
        assert forall|xs: Seq<T::V>|
            items_fit::<T>(xs) && begins(rest(b@, pos as int), (#[trigger] list_bytes::<T>(xs))) implies xs.len()
            == n && xs.take(0) == Seq::<T::V>::empty() && begins(rest(b@, start as int), items_bytes::<T>(xs.subrange(0, n as int))) by {
            lemma_peel(array_header(xs.len()), items_bytes::<T>(xs), rest(b@, pos as int));
            lemma_span_prefix(b@, pos as int, start as int);
            lemma_array_header_unique(xs.len(), n as nat, rest(b@, pos as int));
            lemma_rest_rest(b@, pos as int, start - pos);
            assert(xs.subrange(0, n as int) =~= xs);
            assert(xs.take(0) =~= Seq::<T::V>::empty());
        }
    }
    let mut items: Vec<T> = Vec::new();
    assert(items_view(items@) =~= Seq::<T::V>::empty());
    assert(b@.subrange(start as int, start as int) =~= Seq::<u8>::empty());
    let mut cur = start;
    let mut i: usize = 0;
    while i < n
        invariant
            pos < start <= cur <= b@.len(),
            n < 4294967296,
            b@.subrange(pos as int, start as int) == array_header(n as nat),
            i <= n,
            items@.len() == i,
            b@.subrange(start as int, cur as int) == items_bytes::<T>(items_view(items@)),
            forall|k: int| 0 <= k < i ==> T::fits(#[trigger] items_view(items@)[k]),
            forall|xs: Seq<T::V>|
                items_fit::<T>(xs) && begins(rest(b@, pos as int), (#[trigger] list_bytes::<T>(xs))) ==> xs.len()
                    == n && xs.take(i as int) == items_view(items@) && begins(rest(b@, cur as int), items_bytes::<T>(
                    xs.subrange(i as int, n as int),
                )),
        decreases n - i,
    {
        let ghost old_items = items_view(items@);
        match T::parse(b, cur) {
            Some((item, end)) => {
                proof {
                    assert forall|xs: Seq<T::V>|
                        items_fit::<T>(xs) && begins(rest(b@, pos as int), (#[trigger] list_bytes::<T>(xs))) implies xs.take(
                        i + 1,
                    ) == old_items.push(item@) && begins(rest(b@, end as int), items_bytes::<T>(xs.subrange(i + 1, n as int))) by {
                        let tail = xs.subrange(i as int, n as int);
                        assert(tail[0] == xs[i as int]);
                        assert(tail.drop_first() =~= xs.subrange(i + 1, n as int));
                        lemma_peel(T::encoding(xs[i as int]), items_bytes::<T>(tail.drop_first()), rest(b@, cur as int));
                        lemma_span_prefix(b@, cur as int, end as int);
                        assert(T::fits(xs[i as int]));
                        T::lemma_unique(xs[i as int], item@, rest(b@, cur as int));
                        lemma_rest_rest(b@, cur as int, end - cur);
                        assert(xs.take(i + 1) =~= xs.take(i as int).push(xs[i as int]));
                    }
                    lemma_items_push::<T>(old_items, item@);
                    assert(b@.subrange(start as int, end as int) =~= b@.subrange(start as int, cur as int) + b@.subrange(
                        cur as int,
                        end as int,
                    ));
                }
                items.push(item);
                assert(items_view(items@) =~= old_items.push(item@));
                cur = end;
            },
            None => {
                assert forall|xs: Seq<T::V>| items_fit::<T>(xs) implies !begins(rest(b@, pos as int), (#[trigger] list_bytes::<T>(xs))) by {
                    if begins(rest(b@, pos as int), list_bytes::<T>(xs)) {
                        let tail = xs.subrange(i as int, n as int);
                        assert(tail[0] == xs[i as int]);
                        lemma_peel(T::encoding(xs[i as int]), items_bytes::<T>(tail.drop_first()), rest(b@, cur as int));
                        assert(T::fits(xs[i as int]));
                    }
                }
                return None;
            },
        }
        i += 1;
    }
    proof {
        assert(b@.subrange(pos as int, cur as int) =~= b@.subrange(pos as int, start as int) + b@.subrange(
            start as int,
            cur as int,
        ));
    }
    Some((items, cur))
}

pub open spec fn bet_fits(x: BetView) -> bool {
    str_fits(x.id) && str_fits(x.user_id)
}

/// A bet: the array of its identifier, its user and its stake.
pub open spec fn bet_bytes(x: BetView) -> Seq<u8> {
    array_header(3) + (str_bytes(x.id) + (str_bytes(x.user_id) + uint_bytes(x.val)))
}

pub open spec fn option_fits(x: WagerOptionView) -> bool {
    &&& str_fits(x.id)
    &&& str_fits(x.name)
    &&& str_fits(x.description)
    &&& items_fit::<Bet>(x.bets)
}

/// An option: the array of its identifier, name, description and bets.
pub open spec fn option_bytes(x: WagerOptionView) -> Seq<u8> {
    array_header(4) + (str_bytes(x.id) + (str_bytes(x.name) + (str_bytes(x.description) + list_bytes::<Bet>(x.bets))))
}

pub open spec fn wager_fits(x: WagerView) -> bool {
    &&& str_fits(x.id)
    &&& str_fits(x.name)
    &&& str_fits(x.description)
    &&& items_fit::<WagerOption>(x.options)
}

/// A wager: the array of its identifier, name, description, pot and options.
pub open spec fn wager_bytes(x: WagerView) -> Seq<u8> {
    array_header(5) + (str_bytes(x.id) + (str_bytes(x.name) + (str_bytes(x.description) + (uint_bytes(x.pot)
        + list_bytes::<WagerOption>(x.options)))))
}

/// Bets whose encodings both begin `s` are the same bet.
pub proof fn lemma_bet_unique(x: BetView, y: BetView, s: Seq<u8>)
    requires
        bet_fits(x),
        bet_fits(y),
        begins(s, bet_bytes(x)),
        begins(s, bet_bytes(y)),
    ensures
        x == y,
{
    let h = array_header(3);
    lemma_peel(h, str_bytes(x.id) + (str_bytes(x.user_id) + uint_bytes(x.val)), s);
    lemma_peel(h, str_bytes(y.id) + (str_bytes(y.user_id) + uint_bytes(y.val)), s);
    let s1 = s.subrange(h.len() as int, s.len() as int);
    lemma_peel(str_bytes(x.id), str_bytes(x.user_id) + uint_bytes(x.val), s1);
    lemma_peel(str_bytes(y.id), str_bytes(y.user_id) + uint_bytes(y.val), s1);
    lemma_str_unique(x.id, y.id, s1);
    let s2 = s1.subrange(str_bytes(x.id).len() as int, s1.len() as int);
    lemma_peel(str_bytes(x.user_id), uint_bytes(x.val), s2);
    lemma_peel(str_bytes(y.user_id), uint_bytes(y.val), s2);
    lemma_str_unique(x.user_id, y.user_id, s2);
    let s3 = s2.subrange(str_bytes(x.user_id).len() as int, s2.len() as int);
    lemma_uint_unique(x.val, y.val, s3);
}

impl Wire for Bet {
    open spec fn fits(v: BetView) -> bool {
        bet_fits(v)
    }

    open spec fn encoding(v: BetView) -> Seq<u8> {
        bet_bytes(v)
    }

    proof fn lemma_unique(x: BetView, y: BetView, s: Seq<u8>) {
        lemma_bet_unique(x, y, s);
    }

    fn write(&self, out: &mut Vec<u8>) -> (ok: bool) {
        let ghost start = out@;
        write_array_header(out, 3);
        if !write_str(out, &self.id) {
            return false;
        }
        if !write_str(out, &self.user_id) {
            return false;
        }
        write_uint(out, self.val);
        assert(out@ =~= start + bet_bytes(self@));
        true
    }

    fn parse(b: &[u8], pos: usize) -> (r: Option<(Bet, usize)>) {
        let ghost bs = b@;
        if pos >= b.len() || b[pos] != 0x93 {
            assert forall|x: BetView| bet_fits(x) implies !begins(rest(bs, pos as int), (#[trigger] bet_bytes(x))) by {
                if begins(rest(bs, pos as int), bet_bytes(x)) {
                    lemma_begins_first(rest(bs, pos as int), bet_bytes(x));
                    assert(bet_bytes(x)[0] == 0x93);
                }
            }
            return None;
        }
        assert(bs.subrange(pos as int, pos + 1) =~= array_header(3));
        // For any bet encoded at `pos`, where each of its fields begins.
        assert forall|x: BetView| bet_fits(x) && begins(rest(bs, pos as int), (#[trigger] bet_bytes(x))) implies {
            &&& begins(rest(bs, pos + 1), str_bytes(x.id))
            &&& begins(rest(bs, pos + 1 + str_bytes(x.id).len()), str_bytes(x.user_id))
            &&& begins(rest(bs, pos + 1 + str_bytes(x.id).len() + str_bytes(x.user_id).len()), uint_bytes(x.val))
        } by {
            lemma_peel_at(array_header(3), str_bytes(x.id) + (str_bytes(x.user_id) + uint_bytes(x.val)), bs, pos as int);
            lemma_peel_at(str_bytes(x.id), str_bytes(x.user_id) + uint_bytes(x.val), bs, pos + 1);
            lemma_peel_at(str_bytes(x.user_id), uint_bytes(x.val), bs, pos + 1 + str_bytes(x.id).len());
        }
        let (id, at1) = match parse_str(b, pos + 1) {
            Some(v) => v,
            None => {
                return None;
            },
        };
        assert forall|x: BetView| bet_fits(x) && begins(rest(bs, pos as int), (#[trigger] bet_bytes(x))) implies x.id
            == id@ && at1 == pos + 1 + str_bytes(x.id).len() by {
            lemma_span_prefix(bs, pos + 1, at1 as int);
            lemma_str_unique(x.id, id@, rest(bs, pos + 1));
        }
        let (user_id, at2) = match parse_str(b, at1) {
            Some(v) => v,
            None => {
                return None;
            },
        };
        assert forall|x: BetView| bet_fits(x) && begins(rest(bs, pos as int), (#[trigger] bet_bytes(x))) implies x.user_id
            == user_id@ && at2 == at1 + str_bytes(x.user_id).len() by {
            lemma_span_prefix(bs, at1 as int, at2 as int);
            lemma_str_unique(x.user_id, user_id@, rest(bs, at1 as int));
        }
        let (val, at3) = match parse_uint(b, at2) {
            Some(v) => v,
            None => {
                return None;
            },
        };
        let bet = Bet { id, user_id, val };
        assert(bs.subrange(pos as int, at3 as int) =~= bet_bytes(bet@)) by {
            assert(bs.subrange(pos as int, at3 as int) =~= bs.subrange(pos as int, pos + 1) + (bs.subrange(
                pos + 1,
                at1 as int,
            ) + (bs.subrange(at1 as int, at2 as int) + bs.subrange(at2 as int, at3 as int))));
        }
        Some((bet, at3))
    }
}

pub proof fn lemma_option_unique(x: WagerOptionView, y: WagerOptionView, s: Seq<u8>)
    requires
        option_fits(x),
        option_fits(y),
        begins(s, option_bytes(x)),
        begins(s, option_bytes(y)),
    ensures
        x == y,
{
    let h = array_header(4);
    lemma_peel(h, str_bytes(x.id) + (str_bytes(x.name) + (str_bytes(x.description) + list_bytes::<Bet>(x.bets))), s);
    lemma_peel(h, str_bytes(y.id) + (str_bytes(y.name) + (str_bytes(y.description) + list_bytes::<Bet>(y.bets))), s);
    let s1 = s.subrange(h.len() as int, s.len() as int);
    lemma_peel(str_bytes(x.id), str_bytes(x.name) + (str_bytes(x.description) + list_bytes::<Bet>(x.bets)), s1);
    lemma_peel(str_bytes(y.id), str_bytes(y.name) + (str_bytes(y.description) + list_bytes::<Bet>(y.bets)), s1);
    lemma_str_unique(x.id, y.id, s1);
    let s2 = s1.subrange(str_bytes(x.id).len() as int, s1.len() as int);
    lemma_peel(str_bytes(x.name), str_bytes(x.description) + list_bytes::<Bet>(x.bets), s2);
    lemma_peel(str_bytes(y.name), str_bytes(y.description) + list_bytes::<Bet>(y.bets), s2);
    lemma_str_unique(x.name, y.name, s2);
    let s3 = s2.subrange(str_bytes(x.name).len() as int, s2.len() as int);
    lemma_peel(str_bytes(x.description), list_bytes::<Bet>(x.bets), s3);
    lemma_peel(str_bytes(y.description), list_bytes::<Bet>(y.bets), s3);
    lemma_str_unique(x.description, y.description, s3);
    let s4 = s3.subrange(str_bytes(x.description).len() as int, s3.len() as int);
    lemma_list_unique::<Bet>(x.bets, y.bets, s4);
}

impl Wire for WagerOption {
    open spec fn fits(v: WagerOptionView) -> bool {
        option_fits(v)
    }

    open spec fn encoding(v: WagerOptionView) -> Seq<u8> {
        option_bytes(v)
    }

    proof fn lemma_unique(x: WagerOptionView, y: WagerOptionView, s: Seq<u8>) {
        lemma_option_unique(x, y, s);
    }

    fn write(&self, out: &mut Vec<u8>) -> (ok: bool) {
        let ghost start = out@;
        assert(bets_view(self.bets@) =~= items_view(self.bets@));
        write_array_header(out, 4);
        if !write_str(out, &self.id) {
            return false;
        }
        if !write_str(out, &self.name) {
            return false;
        }
        if !write_str(out, &self.description) {
            return false;
        }
        if !write_list(out, &self.bets) {
            return false;
        }
        assert(out@ =~= start + option_bytes(self@));
        true
    }

    #[verifier::rlimit(60)]
    #[verifier::spinoff_prover]
    fn parse(b: &[u8], pos: usize) -> (r: Option<(WagerOption, usize)>) {
        let ghost bs = b@;
        if pos >= b.len() || b[pos] != 0x94 {
            assert forall|x: WagerOptionView| option_fits(x) implies !begins(rest(bs, pos as int), (#[trigger] option_bytes(x))) by {
                if begins(rest(bs, pos as int), option_bytes(x)) {
                    lemma_begins_first(rest(bs, pos as int), option_bytes(x));
                    assert(option_bytes(x)[0] == 0x94);
                }
            }
            return None;
        }
        assert(bs.subrange(pos as int, pos + 1) =~= array_header(4));
        assert forall|x: WagerOptionView|
            option_fits(x) && begins(rest(bs, pos as int), (#[trigger] option_bytes(x))) implies {
            let at1 = pos + 1 + str_bytes(x.id).len();
            let at2 = at1 + str_bytes(x.name).len();
            let at3 = at2 + str_bytes(x.description).len();
            &&& begins(rest(bs, pos + 1), str_bytes(x.id))
            &&& begins(rest(bs, at1), str_bytes(x.name))
            &&& begins(rest(bs, at2), str_bytes(x.description))
            &&& begins(rest(bs, at3), list_bytes::<Bet>(x.bets))
        } by {
            let at1 = pos + 1 + str_bytes(x.id).len();
            let at2 = at1 + str_bytes(x.name).len();
            lemma_peel_at(
                array_header(4),
                str_bytes(x.id) + (str_bytes(x.name) + (str_bytes(x.description) + list_bytes::<Bet>(x.bets))),
                bs,
                pos as int,
            );
            lemma_peel_at(
                str_bytes(x.id),
                str_bytes(x.name) + (str_bytes(x.description) + list_bytes::<Bet>(x.bets)),
                bs,
                pos + 1,
            );
            lemma_peel_at(str_bytes(x.name), str_bytes(x.description) + list_bytes::<Bet>(x.bets), bs, at1);
            lemma_peel_at(str_bytes(x.description), list_bytes::<Bet>(x.bets), bs, at2);
        }
        let (id, at1) = match parse_str(b, pos + 1) {
            Some(v) => v,
            None => {
                return None;
            },
        };
        assert forall|x: WagerOptionView|
            option_fits(x) && begins(rest(bs, pos as int), (#[trigger] option_bytes(x))) implies x.id == id@ && at1
            == pos + 1 + str_bytes(x.id).len() by {
            lemma_span_prefix(bs, pos + 1, at1 as int);
            lemma_str_unique(x.id, id@, rest(bs, pos + 1));
        }
        let (name, at2) = match parse_str(b, at1) {
            Some(v) => v,
            None => {
                return None;
            },
        };
        assert forall|x: WagerOptionView|
            option_fits(x) && begins(rest(bs, pos as int), (#[trigger] option_bytes(x))) implies x.name == name@
            && at2 == at1 + str_bytes(x.name).len() by {
            lemma_span_prefix(bs, at1 as int, at2 as int);
            lemma_str_unique(x.name, name@, rest(bs, at1 as int));
        }
        let (description, at3) = match parse_str(b, at2) {
            Some(v) => v,
            None => {
                return None;
            },
        };
        assert forall|x: WagerOptionView|
            option_fits(x) && begins(rest(bs, pos as int), (#[trigger] option_bytes(x))) implies x.description
            == description@ && at3 == at2 + str_bytes(x.description).len() by {
            lemma_span_prefix(bs, at2 as int, at3 as int);
            lemma_str_unique(x.description, description@, rest(bs, at2 as int));
        }
        let (bets, at4) = match parse_list::<Bet>(b, at3) {
            Some(v) => v,
            None => {
                return None;
            },
        };
        let option = WagerOption { id, name, description, bets };
        assert(bets_view(option.bets@) =~= items_view(option.bets@));
        assert(bs.subrange(pos as int, at4 as int) =~= option_bytes(option@)) by {
            assert(bs.subrange(pos as int, at4 as int) =~= bs.subrange(pos as int, pos + 1) + (bs.subrange(
                pos + 1,
                at1 as int,
            ) + (bs.subrange(at1 as int, at2 as int) + (bs.subrange(at2 as int, at3 as int) + bs.subrange(
                at3 as int,
                at4 as int,
            )))));
        }
        Some((option, at4))
    }
}

pub proof fn lemma_wager_unique(x: WagerView, y: WagerView, s: Seq<u8>)
    requires
        wager_fits(x),
        wager_fits(y),
        begins(s, wager_bytes(x)),
        begins(s, wager_bytes(y)),
    ensures
        x == y,
{
    let h = array_header(5);
    let tx = uint_bytes(x.pot) + list_bytes::<WagerOption>(x.options);
    let ty = uint_bytes(y.pot) + list_bytes::<WagerOption>(y.options);
    lemma_peel(h, str_bytes(x.id) + (str_bytes(x.name) + (str_bytes(x.description) + tx)), s);
    lemma_peel(h, str_bytes(y.id) + (str_bytes(y.name) + (str_bytes(y.description) + ty)), s);
    let s1 = s.subrange(h.len() as int, s.len() as int);
    lemma_peel(str_bytes(x.id), str_bytes(x.name) + (str_bytes(x.description) + tx), s1);
    lemma_peel(str_bytes(y.id), str_bytes(y.name) + (str_bytes(y.description) + ty), s1);
    lemma_str_unique(x.id, y.id, s1);
    let s2 = s1.subrange(str_bytes(x.id).len() as int, s1.len() as int);
    lemma_peel(str_bytes(x.name), str_bytes(x.description) + tx, s2);
    lemma_peel(str_bytes(y.name), str_bytes(y.description) + ty, s2);
    lemma_str_unique(x.name, y.name, s2);
    let s3 = s2.subrange(str_bytes(x.name).len() as int, s2.len() as int);
    lemma_peel(str_bytes(x.description), tx, s3);
    lemma_peel(str_bytes(y.description), ty, s3);
    lemma_str_unique(x.description, y.description, s3);
    let s4 = s3.subrange(str_bytes(x.description).len() as int, s3.len() as int);
    lemma_peel(uint_bytes(x.pot), list_bytes::<WagerOption>(x.options), s4);
    lemma_peel(uint_bytes(y.pot), list_bytes::<WagerOption>(y.options), s4);
    lemma_uint_unique(x.pot, y.pot, s4);
    let s5 = s4.subrange(uint_bytes(x.pot).len() as int, s4.len() as int);
    lemma_list_unique::<WagerOption>(x.options, y.options, s5);
}

/// Where each field of a wager encoded at `pos` begins.
proof fn lemma_wager_fields(x: WagerView, bs: Seq<u8>, pos: int)
    requires
        0 <= pos <= bs.len(),
        begins(rest(bs, pos), wager_bytes(x)),
    ensures
        ({
            let at1 = pos + 1 + str_bytes(x.id).len();
            let at2 = at1 + str_bytes(x.name).len();
            let at3 = at2 + str_bytes(x.description).len();
            let at4 = at3 + uint_bytes(x.pot).len();
            &&& begins(rest(bs, pos + 1), str_bytes(x.id))
            &&& begins(rest(bs, at1), str_bytes(x.name))
            &&& begins(rest(bs, at2), str_bytes(x.description))
            &&& begins(rest(bs, at3), uint_bytes(x.pot))
            &&& begins(rest(bs, at4), list_bytes::<WagerOption>(x.options))
        }),
{
    let at1 = pos + 1 + str_bytes(x.id).len();
    let at2 = at1 + str_bytes(x.name).len();
    let at3 = at2 + str_bytes(x.description).len();
    let t = uint_bytes(x.pot) + list_bytes::<WagerOption>(x.options);
    lemma_peel_at(array_header(5), str_bytes(x.id) + (str_bytes(x.name) + (str_bytes(x.description) + t)), bs, pos);
    lemma_peel_at(str_bytes(x.id), str_bytes(x.name) + (str_bytes(x.description) + t), bs, pos + 1);
    lemma_peel_at(str_bytes(x.name), str_bytes(x.description) + t, bs, at1);
    lemma_peel_at(str_bytes(x.description), t, bs, at2);
    lemma_peel_at(uint_bytes(x.pot), list_bytes::<WagerOption>(x.options), bs, at3);
}

/// For a wager encoded at `pos` whose first `k` fields were read at the given
/// spans, those fields are the wager's, and its next field begins where they end.
proof fn lemma_wager_known(
    x: WagerView,
    bs: Seq<u8>,
    pos: int,
    k: int,
    at1: int,
    at2: int,
    at3: int,
    at4: int,
    id: Seq<char>,
    name: Seq<char>,
    description: Seq<char>,
    pot: u64,
)
    requires
        0 <= pos <= bs.len(),
        wager_fits(x),
        begins(rest(bs, pos), wager_bytes(x)),
        k >= 1 ==> pos + 1 <= at1 <= bs.len() && bs.subrange(pos + 1, at1) == str_bytes(id) && str_fits(id),
        k >= 2 ==> at1 <= at2 <= bs.len() && bs.subrange(at1, at2) == str_bytes(name) && str_fits(name),
        k >= 3 ==> at2 <= at3 <= bs.len() && bs.subrange(at2, at3) == str_bytes(description) && str_fits(description),
        k >= 4 ==> at3 <= at4 <= bs.len() && bs.subrange(at3, at4) == uint_bytes(pot),
    ensures
        k == 0 ==> begins(rest(bs, pos + 1), str_bytes(x.id)),
        k == 1 ==> begins(rest(bs, at1), str_bytes(x.name)),
        k == 2 ==> begins(rest(bs, at2), str_bytes(x.description)),
        k == 3 ==> begins(rest(bs, at3), uint_bytes(x.pot)),
        k == 4 ==> begins(rest(bs, at4), list_bytes::<WagerOption>(x.options)),
{
    lemma_wager_fields(x, bs, pos);
    if k >= 1 {
        lemma_span_prefix(bs, pos + 1, at1);
        lemma_str_unique(x.id, id, rest(bs, pos + 1));
    }
    if k >= 2 {
        lemma_span_prefix(bs, at1, at2);
        lemma_str_unique(x.name, name, rest(bs, at1));
    }
    if k >= 3 {
        lemma_span_prefix(bs, at2, at3);
        lemma_str_unique(x.description, description, rest(bs, at2));
    }
    if k >= 4 {
        lemma_span_prefix(bs, at3, at4);
        lemma_uint_unique(x.pot, pot, rest(bs, at3));
    }
}

proof fn lemma_wager_span(bs: Seq<u8>, pos: int, at1: int, at2: int, at3: int, at4: int, at5: int, x: WagerView)
    requires
        0 <= pos < at1 <= at2 <= at3 <= at4 <= at5 <= bs.len(),
        bs.subrange(pos, pos + 1) == array_header(5),
        at1 > pos + 1,
        bs.subrange(pos + 1, at1) == str_bytes(x.id),
        bs.subrange(at1, at2) == str_bytes(x.name),
        bs.subrange(at2, at3) == str_bytes(x.description),
        bs.subrange(at3, at4) == uint_bytes(x.pot),
        bs.subrange(at4, at5) == list_bytes::<WagerOption>(x.options),
    ensures
        bs.subrange(pos, at5) == wager_bytes(x),
{
    assert(bs.subrange(pos, at5) =~= bs.subrange(pos, pos + 1) + (bs.subrange(pos + 1, at1) + (bs.subrange(at1, at2) + (
    bs.subrange(at2, at3) + (bs.subrange(at3, at4) + bs.subrange(at4, at5))))));
}

impl Wire for Wager {
    open spec fn fits(v: WagerView) -> bool {
        wager_fits(v)
    }

    open spec fn encoding(v: WagerView) -> Seq<u8> {
        wager_bytes(v)
    }

    proof fn lemma_unique(x: WagerView, y: WagerView, s: Seq<u8>) {
        lemma_wager_unique(x, y, s);
    }

    fn write(&self, out: &mut Vec<u8>) -> (ok: bool) {
        let ghost start = out@;
        assert(options_view(self.options@) =~= items_view(self.options@));
        write_array_header(out, 5);
        if !write_str(out, &self.id) {
            return false;
        }
        if !write_str(out, &self.name) {
            return false;
        }
        if !write_str(out, &self.description) {
            return false;
        }
        write_uint(out, self.pot);
        if !write_list(out, &self.options) {
            return false;
        }
        assert(out@ =~= start + wager_bytes(self@));
        true
    }

    fn parse(b: &[u8], pos: usize) -> (r: Option<(Wager, usize)>) {
        let ghost bs = b@;
        if pos >= b.len() || b[pos] != 0x95 {
            assert forall|x: WagerView| wager_fits(x) implies !begins(rest(bs, pos as int), (#[trigger] wager_bytes(x))) by {
                if begins(rest(bs, pos as int), wager_bytes(x)) {
                    lemma_begins_first(rest(bs, pos as int), wager_bytes(x));
                    assert(wager_bytes(x)[0] == 0x95);
                }
            }
            return None;
        }
        assert(bs.subrange(pos as int, pos + 1) =~= array_header(5));
        let (id, at1) = match parse_str(b, pos + 1) {
            Some(v) => v,
            None => {
                assert forall|x: WagerView| wager_fits(x) implies !begins(rest(bs, pos as int), (#[trigger] wager_bytes(x))) by {
                    if begins(rest(bs, pos as int), wager_bytes(x)) {
                        lemma_wager_known(x, bs, pos as int, 0, 0, 0, 0, 0, Seq::<char>::empty(), Seq::<char>::empty(), Seq::<char>::empty(), 0);
                    }
                }
                return None;
            },
        };
        let (name, at2) = match parse_str(b, at1) {
            Some(v) => v,
            None => {
                assert forall|x: WagerView| wager_fits(x) implies !begins(rest(bs, pos as int), (#[trigger] wager_bytes(x))) by {
                    if begins(rest(bs, pos as int), wager_bytes(x)) {
                        lemma_wager_known(x, bs, pos as int, 1, at1 as int, 0, 0, 0, id@, Seq::<char>::empty(), Seq::<char>::empty(), 0);
                    }
                }
                return None;
            },
        };
        let (description, at3) = match parse_str(b, at2) {
            Some(v) => v,
            None => {
                assert forall|x: WagerView| wager_fits(x) implies !begins(rest(bs, pos as int), (#[trigger] wager_bytes(x))) by {
                    if begins(rest(bs, pos as int), wager_bytes(x)) {
                        lemma_wager_known(x, bs, pos as int, 2, at1 as int, at2 as int, 0, 0, id@, name@, Seq::<char>::empty(), 0);
                    }
                }
                return None;
            },
        };
        let (pot, at4) = match parse_uint(b, at3) {
            Some(v) => v,
            None => {
                assert forall|x: WagerView| wager_fits(x) implies !begins(rest(bs, pos as int), (#[trigger] wager_bytes(x))) by {
                    if begins(rest(bs, pos as int), wager_bytes(x)) {
                        lemma_wager_known(x, bs, pos as int, 3, at1 as int, at2 as int, at3 as int, 0, id@, name@, description@, 0);
                    }
                }
                return None;
            },
        };
        let (options, at5) = match parse_list::<WagerOption>(b, at4) {
            Some(v) => v,
            None => {
                assert forall|x: WagerView| wager_fits(x) implies !begins(rest(bs, pos as int), (#[trigger] wager_bytes(x))) by {
                    if begins(rest(bs, pos as int), wager_bytes(x)) {
                        lemma_wager_known(x, bs, pos as int, 4, at1 as int, at2 as int, at3 as int, at4 as int, id@, name@, description@, pot);
                    }
                }
                return None;
            },
        };
        let wager = Wager { id, name, description, pot, options };
        assert(options_view(wager.options@) =~= items_view(wager.options@));
        proof {
            lemma_wager_span(bs, pos as int, at1 as int, at2 as int, at3 as int, at4 as int, at5 as int, wager@);
        }
        Some((wager, at5))
    }
}

proof fn lemma_tag_facts()
    ensures
        str_fits("Login"@),
        str_fits("WhoAmI"@),
        str_fits("WagerData"@),
        str_fits("ResolveWager"@),
        str_fits("None"@),
        str_fits("SuccessfulLogin"@),
        str_fits("RequestPacket"@),
        str_fits("ResponsePacket"@),
        str_fits("Error"@),
        "Login"@ != "ResolveWager"@,
        "WhoAmI"@ != "WagerData"@,
        "SuccessfulLogin"@ != "WhoAmI"@,
        "SuccessfulLogin"@ != "WagerData"@,
        "RequestPacket"@ != "ResponsePacket"@,
{
    reveal_strlit("Login");
    reveal_strlit("WhoAmI");
    reveal_strlit("WagerData");
    reveal_strlit("ResolveWager");
    reveal_strlit("None");
    reveal_strlit("SuccessfulLogin");
    reveal_strlit("RequestPacket");
    reveal_strlit("ResponsePacket");
    reveal_strlit("Error");
    lemma_short_str_fits("Login"@);
    lemma_short_str_fits("WhoAmI"@);
    lemma_short_str_fits("WagerData"@);
    lemma_short_str_fits("ResolveWager"@);
    lemma_short_str_fits("None"@);
    lemma_short_str_fits("SuccessfulLogin"@);
    lemma_short_str_fits("RequestPacket"@);
    lemma_short_str_fits("ResponsePacket"@);
    lemma_short_str_fits("Error"@);
}

/// The data of a login: an array holding the user's name.
pub open spec fn login_payload(user: Seq<char>) -> Seq<u8> {
    array_header(1) + str_bytes(user)
}

/// The data of a variant with two string fields: an array holding both.
pub open spec fn pair_payload(a: Seq<char>, c: Seq<char>) -> Seq<u8> {
    array_header(2) + (str_bytes(a) + str_bytes(c))
}

proof fn lemma_login_payload_unique(u1: Seq<char>, u2: Seq<char>, s: Seq<u8>)
    requires
        str_fits(u1),
        str_fits(u2),
        begins(s, login_payload(u1)),
        begins(s, login_payload(u2)),
    ensures
        u1 == u2,
{
    lemma_peel(array_header(1), str_bytes(u1), s);
    lemma_peel(array_header(1), str_bytes(u2), s);
    lemma_str_unique(u1, u2, s.subrange(1, s.len() as int));
}

proof fn lemma_pair_payload_unique(a1: Seq<char>, c1: Seq<char>, a2: Seq<char>, c2: Seq<char>, s: Seq<u8>)
    requires
        str_fits(a1),
        str_fits(c1),
        str_fits(a2),
        str_fits(c2),
        begins(s, pair_payload(a1, c1)),
        begins(s, pair_payload(a2, c2)),
    ensures
        a1 == a2,
        c1 == c2,
{
    lemma_peel(array_header(2), str_bytes(a1) + str_bytes(c1), s);
    lemma_peel(array_header(2), str_bytes(a2) + str_bytes(c2), s);
    let s1 = s.subrange(1, s.len() as int);
    lemma_peel(str_bytes(a1), str_bytes(c1), s1);
    lemma_peel(str_bytes(a2), str_bytes(c2), s1);
    lemma_str_unique(a1, a2, s1);
    lemma_str_unique(c1, c2, s1.subrange(str_bytes(a1).len() as int, s1.len() as int));
}

fn parse_login_payload(b: &[u8], pos: usize) -> (r: Option<(String, usize)>)
    requires
        pos <= b@.len(),
    ensures
        match r {
            Some((u, end)) => pos < end <= b@.len() && str_fits(u@) && b@.subrange(pos as int, end as int)
                == login_payload(u@),
            None => forall|u: Seq<char>| str_fits(u) ==> !begins(rest(b@, pos as int), #[trigger] login_payload(u)),
        },
{
    let ghost bs = b@;
    if pos >= b.len() || b[pos] != 0x91 {
        assert forall|u: Seq<char>| str_fits(u) implies !begins(rest(bs, pos as int), #[trigger] login_payload(u)) by {
            if begins(rest(bs, pos as int), login_payload(u)) {
                lemma_begins_first(rest(bs, pos as int), login_payload(u));
                assert(login_payload(u)[0] == 0x91);
            }
        }
        return None;
    }
    match parse_str(b, pos + 1) {
        Some((u, end)) => {
            assert(bs.subrange(pos as int, end as int) =~= login_payload(u@));
            Some((u, end))
        },
        None => {
            assert forall|u: Seq<char>| str_fits(u) implies !begins(rest(bs, pos as int), #[trigger] login_payload(u)) by {
                if begins(rest(bs, pos as int), login_payload(u)) {
                    lemma_peel_at(array_header(1), str_bytes(u), bs, pos as int);
                }
            }
            None
        },
    }
}

fn parse_pair_payload(b: &[u8], pos: usize) -> (r: Option<(String, String, usize)>)
    requires
        pos <= b@.len(),
    ensures
        match r {
            Some((a, c, end)) => pos < end <= b@.len() && str_fits(a@) && str_fits(c@) && b@.subrange(
                pos as int,
                end as int,
            ) == pair_payload(a@, c@),
            None => forall|a: Seq<char>, c: Seq<char>|
                str_fits(a) && str_fits(c) ==> !begins(rest(b@, pos as int), #[trigger] pair_payload(a, c)),
        },
{
    let ghost bs = b@;
    if pos >= b.len() || b[pos] != 0x92 {
        assert forall|a: Seq<char>, c: Seq<char>| str_fits(a) && str_fits(c) implies !begins(
            rest(bs, pos as int),
            #[trigger] pair_payload(a, c),
        ) by {
            if begins(rest(bs, pos as int), pair_payload(a, c)) {
                lemma_begins_first(rest(bs, pos as int), pair_payload(a, c));
                assert(pair_payload(a, c)[0] == 0x92);
            }
        }
        return None;
    }
    let (a, at1) = match parse_str(b, pos + 1) {
        Some(v) => v,
        None => {
            assert forall|a: Seq<char>, c: Seq<char>| str_fits(a) && str_fits(c) implies !begins(
                rest(bs, pos as int),
                #[trigger] pair_payload(a, c),
            ) by {
                if begins(rest(bs, pos as int), pair_payload(a, c)) {
                    lemma_peel_at(array_header(2), str_bytes(a) + str_bytes(c), bs, pos as int);
                    lemma_peel_at(str_bytes(a), str_bytes(c), bs, pos + 1);
                }
            }
            return None;
        },
    };
    match parse_str(b, at1) {
        Some((c, end)) => {
            assert(bs.subrange(pos as int, end as int) =~= pair_payload(a@, c@));
            Some((a, c, end))
        },
        None => {
            assert forall|x: Seq<char>, y: Seq<char>| str_fits(x) && str_fits(y) implies !begins(
                rest(bs, pos as int),
                #[trigger] pair_payload(x, y),
            ) by {
                if begins(rest(bs, pos as int), pair_payload(x, y)) {
                    lemma_peel_at(array_header(2), str_bytes(x) + str_bytes(y), bs, pos as int);
                    lemma_peel_at(str_bytes(x), str_bytes(y), bs, pos + 1);
                    lemma_span_prefix(bs, pos + 1, at1 as int);
                    lemma_str_unique(x, a@, rest(bs, pos + 1));
                }
            }
            None
        },
    }
}

pub open spec fn request_fits(r: RequestView) -> bool {
    match r {
        RequestView::Login { user } => str_fits(user),
        RequestView::ResolveWager { wager_id, winning_option_id } => str_fits(wager_id) && str_fits(
            winning_option_id,
        ),
        _ => true,
    }
}

pub open spec fn request_tag(r: RequestView) -> Seq<char> {
    match r {
        RequestView::Login { .. } => "Login"@,
        RequestView::WhoAmI => "WhoAmI"@,
        RequestView::WagerData => "WagerData"@,
        RequestView::ResolveWager { .. } => "ResolveWager"@,
    }
}

pub open spec fn request_payload(r: RequestView) -> Option<Seq<u8>> {
    match r {
        RequestView::Login { user } => Some(login_payload(user)),
        RequestView::ResolveWager { wager_id, winning_option_id } => Some(pair_payload(wager_id, winning_option_id)),
        _ => None,
    }
}

/// A request on the wire.
pub open spec fn request_bytes(r: RequestView) -> Seq<u8> {
    variant_bytes(request_tag(r), request_payload(r))
}

pub proof fn lemma_request_unique(x: RequestView, y: RequestView, s: Seq<u8>)
    requires
        request_fits(x),
        request_fits(y),
        begins(s, request_bytes(x)),
        begins(s, request_bytes(y)),
    ensures
        x == y,
{
    lemma_tag_facts();
    lemma_variant_unique(request_tag(x), request_payload(x), request_tag(y), request_payload(y), s);
    let d = s.subrange(1 + str_bytes(request_tag(x)).len() as int, s.len() as int);
    match (x, y) {
        (RequestView::Login { user: u1 }, RequestView::Login { user: u2 }) => {
            lemma_login_payload_unique(u1, u2, d);
        },
        (RequestView::ResolveWager { wager_id: a1, winning_option_id: c1 }, RequestView::ResolveWager { wager_id: a2, winning_option_id: c2 }) => {
            lemma_pair_payload_unique(a1, c1, a2, c2, d);
        },
        _ => {},
    }
}

/// Appends a variant's map marker and name.
fn write_tag(out: &mut Vec<u8>, tag: &str)
    requires
        str_fits(tag@),
    ensures
        final(out)@ == old(out)@ + (seq![0x81u8] + str_bytes(tag@)),
{
    out.push(0x81);
    let ok = write_str(out, &tag.to_owned());
    assert(final(out)@ =~= old(out)@ + (seq![0x81u8] + str_bytes(tag@)));
}

/// Appends the name of a variant without data.
fn write_unit(out: &mut Vec<u8>, tag: &str)
    requires
        str_fits(tag@),
    ensures
        final(out)@ == old(out)@ + str_bytes(tag@),
{
    let ok = write_str(out, &tag.to_owned());
}

pub fn write_request(out: &mut Vec<u8>, r: &Request) -> (ok: bool)
    ensures
        ok == request_fits(r@),
        ok ==> final(out)@ == old(out)@ + request_bytes(r@),
{
    proof {
        lemma_tag_facts();
    }
    let ghost start = out@;
    match r {
        Request::Login { user } => {
            write_tag(out, "Login");
            write_array_header(out, 1);
            if !write_str(out, user) {
                return false;
            }
            assert(out@ =~= start + request_bytes(r@));
        },
        Request::WhoAmI => {
            write_unit(out, "WhoAmI");
        },
        Request::WagerData => {
            write_unit(out, "WagerData");
        },
        Request::ResolveWager { wager_id, winning_option_id } => {
            write_tag(out, "ResolveWager");
            write_array_header(out, 2);
            if !write_str(out, wager_id) {
                return false;
            }
            if !write_str(out, winning_option_id) {
                return false;
            }
            assert(out@ =~= start + request_bytes(r@));
        },
    }
    true
}

/// Reads a request at `pos`, and the position after it.
pub fn parse_request(b: &[u8], pos: usize) -> (r: Option<(Request, usize)>)
    requires
        pos <= b@.len(),
    ensures
        match r {
            Some((v, end)) => pos < end <= b@.len() && request_fits(v@) && b@.subrange(pos as int, end as int)
                == request_bytes(v@),
            None => forall|x: RequestView| request_fits(x) ==> !begins(rest(b@, pos as int), #[trigger] request_bytes(x)),
        },
{
    proof {
        lemma_tag_facts();
    }
    let ghost bs = b@;
    if pos < b.len() && b[pos] == 0x81 {
        let (t, at1) = match parse_str(b, pos + 1) {
            Some(v) => v,
            None => {
                assert forall|x: RequestView| request_fits(x) implies !begins(rest(bs, pos as int), #[trigger] request_bytes(x)) by {
                    if begins(rest(bs, pos as int), request_bytes(x)) {
                        lemma_variant_at(request_tag(x), request_payload(x), bs, pos as int, Seq::<char>::empty(), pos as int);
                    }
                }
                return None;
            },
        };
        if is_tag(&t, "Login") {
            match parse_login_payload(b, at1) {
                Some((user, end)) => {
                    let v = Request::Login { user };
                    assert(bs.subrange(pos as int, end as int) =~= request_bytes(v@)) by {
                        assert(bs.subrange(pos as int, end as int) =~= bs.subrange(pos as int, pos + 1) + (bs.subrange(
                            pos + 1,
                            at1 as int,
                        ) + bs.subrange(at1 as int, end as int)));
                    }
                    return Some((v, end));
                },
                None => {
                    assert forall|x: RequestView| request_fits(x) implies !begins(rest(bs, pos as int), #[trigger] request_bytes(x)) by {
                        if begins(rest(bs, pos as int), request_bytes(x)) {
                            lemma_variant_at(request_tag(x), request_payload(x), bs, pos as int, t@, at1 as int);
                        }
                    }
                    return None;
                },
            }
        } else if is_tag(&t, "ResolveWager") {
            match parse_pair_payload(b, at1) {
                Some((wager_id, winning_option_id, end)) => {
                    let v = Request::ResolveWager { wager_id, winning_option_id };
                    assert(bs.subrange(pos as int, end as int) =~= request_bytes(v@)) by {
                        assert(bs.subrange(pos as int, end as int) =~= bs.subrange(pos as int, pos + 1) + (bs.subrange(
                            pos + 1,
                            at1 as int,
                        ) + bs.subrange(at1 as int, end as int)));
                    }
                    return Some((v, end));
                },
                None => {
                    assert forall|x: RequestView| request_fits(x) implies !begins(rest(bs, pos as int), #[trigger] request_bytes(x)) by {
                        if begins(rest(bs, pos as int), request_bytes(x)) {
                            lemma_variant_at(request_tag(x), request_payload(x), bs, pos as int, t@, at1 as int);
                        }
                    }
                    return None;
                },
            }
        } else {
            assert forall|x: RequestView| request_fits(x) implies !begins(rest(bs, pos as int), #[trigger] request_bytes(x)) by {
                if begins(rest(bs, pos as int), request_bytes(x)) {
                    lemma_variant_at(request_tag(x), request_payload(x), bs, pos as int, t@, at1 as int);
                }
            }
            return None;
        }
    }
    let (t, at1) = match parse_str(b, pos) {
        Some(v) => v,
        None => {
            assert forall|x: RequestView| request_fits(x) implies !begins(rest(bs, pos as int), #[trigger] request_bytes(x)) by {
                if begins(rest(bs, pos as int), request_bytes(x)) {
                    lemma_variant_at(request_tag(x), request_payload(x), bs, pos as int, Seq::<char>::empty(), pos as int);
                }
            }
            return None;
        },
    };
    if is_tag(&t, "WhoAmI") {
        return Some((Request::WhoAmI, at1));
    }
    if is_tag(&t, "WagerData") {
        return Some((Request::WagerData, at1));
    }
    assert forall|x: RequestView| request_fits(x) implies !begins(rest(bs, pos as int), #[trigger] request_bytes(x)) by {
        if begins(rest(bs, pos as int), request_bytes(x)) {
            lemma_variant_at(request_tag(x), request_payload(x), bs, pos as int, t@, at1 as int);
        }
    }
    None
}

/// The data of a successful login: an array of the name and the balance.
pub open spec fn success_payload(username: Seq<char>, balance: u64) -> Seq<u8> {
    array_header(2) + (str_bytes(username) + uint_bytes(balance))
}

proof fn lemma_success_payload_unique(u1: Seq<char>, b1: u64, u2: Seq<char>, b2: u64, s: Seq<u8>)
    requires
        str_fits(u1),
        str_fits(u2),
        begins(s, success_payload(u1, b1)),
        begins(s, success_payload(u2, b2)),
    ensures
        u1 == u2,
        b1 == b2,
{
    lemma_peel(array_header(2), str_bytes(u1) + uint_bytes(b1), s);
    lemma_peel(array_header(2), str_bytes(u2) + uint_bytes(b2), s);
    let s1 = s.subrange(1, s.len() as int);
    lemma_peel(str_bytes(u1), uint_bytes(b1), s1);
    lemma_peel(str_bytes(u2), uint_bytes(b2), s1);
    lemma_str_unique(u1, u2, s1);
    lemma_uint_unique(b1, b2, s1.subrange(str_bytes(u1).len() as int, s1.len() as int));
}

fn parse_success_payload(b: &[u8], pos: usize) -> (r: Option<(String, u64, usize)>)
    requires
        pos <= b@.len(),
    ensures
        match r {
            Some((u, bal, end)) => pos < end <= b@.len() && str_fits(u@) && b@.subrange(pos as int, end as int)
                == success_payload(u@, bal),
            None => forall|u: Seq<char>, bal: u64|
                str_fits(u) ==> !begins(rest(b@, pos as int), #[trigger] success_payload(u, bal)),
        },
{
    let ghost bs = b@;
    if pos >= b.len() || b[pos] != 0x92 {
        assert forall|u: Seq<char>, bal: u64| str_fits(u) implies !begins(
            rest(bs, pos as int),
            #[trigger] success_payload(u, bal),
        ) by {
            if begins(rest(bs, pos as int), success_payload(u, bal)) {
                lemma_begins_first(rest(bs, pos as int), success_payload(u, bal));
                assert(success_payload(u, bal)[0] == 0x92);
            }
        }
        return None;
    }
    let (u, at1) = match parse_str(b, pos + 1) {
        Some(v) => v,
        None => {
            assert forall|u: Seq<char>, bal: u64| str_fits(u) implies !begins(
                rest(bs, pos as int),
                #[trigger] success_payload(u, bal),
            ) by {
                if begins(rest(bs, pos as int), success_payload(u, bal)) {
                    lemma_peel_at(array_header(2), str_bytes(u) + uint_bytes(bal), bs, pos as int);
                    lemma_peel_at(str_bytes(u), uint_bytes(bal), bs, pos + 1);
                }
            }
            return None;
        },
    };
    match parse_uint(b, at1) {
        Some((bal, end)) => {
            assert(bs.subrange(pos as int, end as int) =~= success_payload(u@, bal));
            Some((u, bal, end))
        },
        None => {
            assert forall|x: Seq<char>, y: u64| str_fits(x) implies !begins(
                rest(bs, pos as int),
                #[trigger] success_payload(x, y),
            ) by {
                if begins(rest(bs, pos as int), success_payload(x, y)) {
                    lemma_peel_at(array_header(2), str_bytes(x) + uint_bytes(y), bs, pos as int);
                    lemma_peel_at(str_bytes(x), uint_bytes(y), bs, pos + 1);
                    lemma_span_prefix(bs, pos + 1, at1 as int);
                    lemma_str_unique(x, u@, rest(bs, pos + 1));
                }
            }
            None
        },
    }
}

pub open spec fn response_fits(r: ResponseView) -> bool {
    match r {
        ResponseView::Acknowledged => true,
        ResponseView::SuccessfulLogin { username, .. } => str_fits(username),
        ResponseView::WhoAmI(name) => str_fits(name),
        ResponseView::WagerData(wagers) => items_fit::<Wager>(wagers),
    }
}

pub open spec fn response_tag(r: ResponseView) -> Seq<char> {
    match r {
        ResponseView::Acknowledged => "None"@,
        ResponseView::SuccessfulLogin { .. } => "SuccessfulLogin"@,
        ResponseView::WhoAmI(_) => "WhoAmI"@,
        ResponseView::WagerData(_) => "WagerData"@,
    }
}

pub open spec fn response_payload(r: ResponseView) -> Option<Seq<u8>> {
    match r {
        ResponseView::Acknowledged => None,
        ResponseView::SuccessfulLogin { username, balance } => Some(success_payload(username, balance)),
        ResponseView::WhoAmI(name) => Some(str_bytes(name)),
        ResponseView::WagerData(wagers) => Some(list_bytes::<Wager>(wagers)),
    }
}

/// A response on the wire. The variant without data keeps the name `None`.
pub open spec fn response_bytes(r: ResponseView) -> Seq<u8> {
    variant_bytes(response_tag(r), response_payload(r))
}

pub proof fn lemma_response_unique(x: ResponseView, y: ResponseView, s: Seq<u8>)
    requires
        response_fits(x),
        response_fits(y),
        begins(s, response_bytes(x)),
        begins(s, response_bytes(y)),
    ensures
        x == y,
{
    lemma_tag_facts();
    lemma_variant_unique(response_tag(x), response_payload(x), response_tag(y), response_payload(y), s);
    let d = s.subrange(1 + str_bytes(response_tag(x)).len() as int, s.len() as int);
    match (x, y) {
        (ResponseView::SuccessfulLogin { username: u1, balance: b1 }, ResponseView::SuccessfulLogin { username: u2, balance: b2 }) => {
            lemma_success_payload_unique(u1, b1, u2, b2, d);
        },
        (ResponseView::WhoAmI(n1), ResponseView::WhoAmI(n2)) => {
            lemma_str_unique(n1, n2, d);
        },
        (ResponseView::WagerData(w1), ResponseView::WagerData(w2)) => {
            lemma_list_unique::<Wager>(w1, w2, d);
        },
        _ => {},
    }
}

pub fn write_response(out: &mut Vec<u8>, r: &Response) -> (ok: bool)
    ensures
        ok == response_fits(r@),
        ok ==> final(out)@ == old(out)@ + response_bytes(r@),
{
    proof {
        lemma_tag_facts();
    }
    let ghost start = out@;
    match r {
        Response::Acknowledged => {
            write_unit(out, "None");
        },
        Response::SuccessfulLogin { username, balance } => {
            write_tag(out, "SuccessfulLogin");
            write_array_header(out, 2);
            if !write_str(out, username) {
                return false;
            }
            write_uint(out, *balance);
            assert(out@ =~= start + response_bytes(r@));
        },
        Response::WhoAmI(name) => {
            write_tag(out, "WhoAmI");
            if !write_str(out, name) {
                return false;
            }
            assert(out@ =~= start + response_bytes(r@));
        },
        Response::WagerData(wagers) => {
            write_tag(out, "WagerData");
            assert(wagers_view(wagers@) =~= items_view(wagers@));
            if !write_list(out, wagers) {
                return false;
            }
            assert(out@ =~= start + response_bytes(r@));
        },
    }
    true
}

/// Reads a response at `pos`, and the position after it.
#[verifier::rlimit(80)]
#[verifier::spinoff_prover]
pub fn parse_response(b: &[u8], pos: usize) -> (r: Option<(Response, usize)>)
    requires
        pos <= b@.len(),
    ensures
        match r {
            Some((v, end)) => pos < end <= b@.len() && response_fits(v@) && b@.subrange(pos as int, end as int)
                == response_bytes(v@),
            None => forall|x: ResponseView| response_fits(x) ==> !begins(rest(b@, pos as int), #[trigger] response_bytes(x)),
        },
{
    proof {
        lemma_tag_facts();
    }
    let ghost bs = b@;
    if pos < b.len() && b[pos] == 0x81 {
        let (t, at1) = match parse_str(b, pos + 1) {
            Some(v) => v,
            None => {
                assert forall|x: ResponseView| response_fits(x) implies !begins(rest(bs, pos as int), #[trigger] response_bytes(x)) by {
                    if begins(rest(bs, pos as int), response_bytes(x)) {
                        lemma_variant_at(response_tag(x), response_payload(x), bs, pos as int, Seq::<char>::empty(), pos as int);
                    }
                }
                return None;
            },
        };
        if is_tag(&t, "SuccessfulLogin") {
            match parse_success_payload(b, at1) {
                Some((username, balance, end)) => {
                    let v = Response::SuccessfulLogin { username, balance };
                    assert(bs.subrange(pos as int, end as int) =~= response_bytes(v@)) by {
                        assert(bs.subrange(pos as int, end as int) =~= bs.subrange(pos as int, pos + 1) + (bs.subrange(
                            pos + 1,
                            at1 as int,
                        ) + bs.subrange(at1 as int, end as int)));
                    }
                    return Some((v, end));
                },
                None => {
                    assert forall|x: ResponseView| response_fits(x) implies !begins(rest(bs, pos as int), #[trigger] response_bytes(x)) by {
                        if begins(rest(bs, pos as int), response_bytes(x)) {
                            lemma_variant_at(response_tag(x), response_payload(x), bs, pos as int, t@, at1 as int);
                        }
                    }
                    return None;
                },
            }
        } else if is_tag(&t, "WhoAmI") {
            match parse_str(b, at1) {
                Some((name, end)) => {
                    let v = Response::WhoAmI(name);
                    assert(bs.subrange(pos as int, end as int) =~= response_bytes(v@)) by {
                        assert(bs.subrange(pos as int, end as int) =~= bs.subrange(pos as int, pos + 1) + (bs.subrange(
                            pos + 1,
                            at1 as int,
                        ) + bs.subrange(at1 as int, end as int)));
                    }
                    return Some((v, end));
                },
                None => {
                    assert forall|x: ResponseView| response_fits(x) implies !begins(rest(bs, pos as int), #[trigger] response_bytes(x)) by {
                        if begins(rest(bs, pos as int), response_bytes(x)) {
                            lemma_variant_at(response_tag(x), response_payload(x), bs, pos as int, t@, at1 as int);
                        }
                    }
                    return None;
                },
            }
        } else if is_tag(&t, "WagerData") {
            match parse_list::<Wager>(b, at1) {
                Some((wagers, end)) => {
                    let v = Response::WagerData(wagers);
                    assert(wagers_view(v->WagerData_0@) =~= items_view(v->WagerData_0@));
                    assert(bs.subrange(pos as int, end as int) =~= response_bytes(v@)) by {
                        assert(bs.subrange(pos as int, end as int) =~= bs.subrange(pos as int, pos + 1) + (bs.subrange(
                            pos + 1,
                            at1 as int,
                        ) + bs.subrange(at1 as int, end as int)));
                    }
                    return Some((v, end));
                },
                None => {
                    assert forall|x: ResponseView| response_fits(x) implies !begins(rest(bs, pos as int), #[trigger] response_bytes(x)) by {
                        if begins(rest(bs, pos as int), response_bytes(x)) {
                            lemma_variant_at(response_tag(x), response_payload(x), bs, pos as int, t@, at1 as int);
                        }
                    }
                    return None;
                },
            }
        } else {
            assert forall|x: ResponseView| response_fits(x) implies !begins(rest(bs, pos as int), #[trigger] response_bytes(x)) by {
                if begins(rest(bs, pos as int), response_bytes(x)) {
                    lemma_variant_at(response_tag(x), response_payload(x), bs, pos as int, t@, at1 as int);
                }
            }
            return None;
        }
    }
    let (t, at1) = match parse_str(b, pos) {
        Some(v) => v,
        None => {
            assert forall|x: ResponseView| response_fits(x) implies !begins(rest(bs, pos as int), #[trigger] response_bytes(x)) by {
                if begins(rest(bs, pos as int), response_bytes(x)) {
                    lemma_variant_at(response_tag(x), response_payload(x), bs, pos as int, Seq::<char>::empty(), pos as int);
                }
            }
            return None;
        },
    };
    if is_tag(&t, "None") {
        return Some((Response::Acknowledged, at1));
    }
    assert forall|x: ResponseView| response_fits(x) implies !begins(rest(bs, pos as int), #[trigger] response_bytes(x)) by {
        if begins(rest(bs, pos as int), response_bytes(x)) {
            lemma_variant_at(response_tag(x), response_payload(x), bs, pos as int, t@, at1 as int);
        }
    }
    None
}

pub open spec fn packet_fits(p: PacketView) -> bool {
    match p {
        PacketView::RequestPacket(req) => request_fits(req),
        PacketView::ResponsePacket(resp) => response_fits(resp),
        PacketView::Error => true,
    }
}

pub open spec fn packet_tag(p: PacketView) -> Seq<char> {
    match p {
        PacketView::RequestPacket(_) => "RequestPacket"@,
        PacketView::ResponsePacket(_) => "ResponsePacket"@,
        PacketView::Error => "Error"@,
    }
}

pub open spec fn packet_payload(p: PacketView) -> Option<Seq<u8>> {
    match p {
        PacketView::RequestPacket(req) => Some(request_bytes(req)),
        PacketView::ResponsePacket(resp) => Some(response_bytes(resp)),
        PacketView::Error => None,
    }
}

/// A packet on the wire.
pub open spec fn packet_bytes(p: PacketView) -> Seq<u8> {
    variant_bytes(packet_tag(p), packet_payload(p))
}

pub proof fn lemma_packet_unique(x: PacketView, y: PacketView, s: Seq<u8>)
    requires
        packet_fits(x),
        packet_fits(y),
        begins(s, packet_bytes(x)),
        begins(s, packet_bytes(y)),
    ensures
        x == y,
{
    lemma_tag_facts();
    lemma_variant_unique(packet_tag(x), packet_payload(x), packet_tag(y), packet_payload(y), s);
    let d = s.subrange(1 + str_bytes(packet_tag(x)).len() as int, s.len() as int);
    match (x, y) {
        (PacketView::RequestPacket(r1), PacketView::RequestPacket(r2)) => {
            lemma_request_unique(r1, r2, d);
        },
        (PacketView::ResponsePacket(r1), PacketView::ResponsePacket(r2)) => {
            lemma_response_unique(r1, r2, d);
        },
        _ => {},
    }
}

fn write_packet(out: &mut Vec<u8>, p: &Packet) -> (ok: bool)
    ensures
        ok == packet_fits(p@),
        ok ==> final(out)@ == old(out)@ + packet_bytes(p@),
{
    proof {
        lemma_tag_facts();
    }
    let ghost start = out@;
    match p {
        Packet::RequestPacket(req) => {
            write_tag(out, "RequestPacket");
            if !write_request(out, req) {
                return false;
            }
            assert(out@ =~= start + packet_bytes(p@));
        },
        Packet::ResponsePacket(resp) => {
            write_tag(out, "ResponsePacket");
            if !write_response(out, resp) {
                return false;
            }
            assert(out@ =~= start + packet_bytes(p@));
        },
        Packet::Error => {
            write_unit(out, "Error");
        },
    }
    true
}

/// Reads a packet at `pos`, and the position after it.
#[verifier::rlimit(80)]
#[verifier::spinoff_prover]
fn parse_packet(b: &[u8], pos: usize) -> (r: Option<(Packet, usize)>)
    requires
        pos <= b@.len(),
    ensures
        match r {
            Some((v, end)) => pos < end <= b@.len() && packet_fits(v@) && b@.subrange(pos as int, end as int)
                == packet_bytes(v@),
            None => forall|x: PacketView| packet_fits(x) ==> !begins(rest(b@, pos as int), #[trigger] packet_bytes(x)),
        },
{
    proof {
        lemma_tag_facts();
    }
    let ghost bs = b@;
    if pos < b.len() && b[pos] == 0x81 {
        let (t, at1) = match parse_str(b, pos + 1) {
            Some(v) => v,
            None => {
                assert forall|x: PacketView| packet_fits(x) implies !begins(rest(bs, pos as int), #[trigger] packet_bytes(x)) by {
                    if begins(rest(bs, pos as int), packet_bytes(x)) {
                        lemma_variant_at(packet_tag(x), packet_payload(x), bs, pos as int, Seq::<char>::empty(), pos as int);
                    }
                }
                return None;
            },
        };
        if is_tag(&t, "RequestPacket") {
            match parse_request(b, at1) {
                Some((req, end)) => {
                    let v = Packet::RequestPacket(req);
                    assert(bs.subrange(pos as int, end as int) =~= packet_bytes(v@)) by {
                        assert(bs.subrange(pos as int, end as int) =~= bs.subrange(pos as int, pos + 1) + (bs.subrange(
                            pos + 1,
                            at1 as int,
                        ) + bs.subrange(at1 as int, end as int)));
                    }
                    return Some((v, end));
                },
                None => {
                    assert forall|x: PacketView| packet_fits(x) implies !begins(rest(bs, pos as int), #[trigger] packet_bytes(x)) by {
                        if begins(rest(bs, pos as int), packet_bytes(x)) {
                            lemma_variant_at(packet_tag(x), packet_payload(x), bs, pos as int, t@, at1 as int);
                        }
                    }
                    return None;
                },
            }
        } else if is_tag(&t, "ResponsePacket") {
            match parse_response(b, at1) {
                Some((resp, end)) => {
                    let v = Packet::ResponsePacket(resp);
                    assert(bs.subrange(pos as int, end as int) =~= packet_bytes(v@)) by {
                        assert(bs.subrange(pos as int, end as int) =~= bs.subrange(pos as int, pos + 1) + (bs.subrange(
                            pos + 1,
                            at1 as int,
                        ) + bs.subrange(at1 as int, end as int)));
                    }
                    return Some((v, end));
                },
                None => {
                    assert forall|x: PacketView| packet_fits(x) implies !begins(rest(bs, pos as int), #[trigger] packet_bytes(x)) by {
                        if begins(rest(bs, pos as int), packet_bytes(x)) {
                            lemma_variant_at(packet_tag(x), packet_payload(x), bs, pos as int, t@, at1 as int);
                        }
                    }
                    return None;
                },
            }
        } else {
            assert forall|x: PacketView| packet_fits(x) implies !begins(rest(bs, pos as int), #[trigger] packet_bytes(x)) by {
                if begins(rest(bs, pos as int), packet_bytes(x)) {
                    lemma_variant_at(packet_tag(x), packet_payload(x), bs, pos as int, t@, at1 as int);
                }
            }
            return None;
        }
    }
    let (t, at1) = match parse_str(b, pos) {
        Some(v) => v,
        None => {
            assert forall|x: PacketView| packet_fits(x) implies !begins(rest(bs, pos as int), #[trigger] packet_bytes(x)) by {
                if begins(rest(bs, pos as int), packet_bytes(x)) {
                    lemma_variant_at(packet_tag(x), packet_payload(x), bs, pos as int, Seq::<char>::empty(), pos as int);
                }
            }
            return None;
        },
    };
    if is_tag(&t, "Error") {
        return Some((Packet::Error, at1));
    }
    assert forall|x: PacketView| packet_fits(x) implies !begins(rest(bs, pos as int), #[trigger] packet_bytes(x)) by {
        if begins(rest(bs, pos as int), packet_bytes(x)) {
            lemma_variant_at(packet_tag(x), packet_payload(x), bs, pos as int, t@, at1 as int);
        }
    }
    None
}

/// The packet that the bytes `b` encode, where they encode one.
pub open spec fn decoded(b: Seq<u8>) -> Option<PacketView> {
    if exists|p: PacketView| packet_fits(p) && packet_bytes(p) == b {
        Some(choose|p: PacketView| packet_fits(p) && packet_bytes(p) == b)
    } else {
        None
    }
}

/// Decoding what encoding produced gives back the packet.
pub proof fn lemma_round_trip(p: PacketView)
    requires
        packet_fits(p),
    ensures
        decoded(packet_bytes(p)) == Some(p),
{
    let b = packet_bytes(p);
    assert(packet_fits(p) && packet_bytes(p) == b);
    let q = choose|q: PacketView| packet_fits(q) && packet_bytes(q) == b;
    lemma_begins_self(b);
    lemma_packet_unique(p, q, b);
}

impl Packet {
    /// The wire form of the packet, or `None` where a string or a list in it
    /// is too long for its header.
    pub fn encode(&self) -> (r: Option<Vec<u8>>)
        ensures
            match r {
                Some(b) => packet_fits(self@) && b@ == packet_bytes(self@),
                None => !packet_fits(self@),
            },
    {
        let mut out: Vec<u8> = Vec::new();
        if write_packet(&mut out, self) {
            assert(out@ =~= packet_bytes(self@));
            Some(out)
        } else {
            None
        }
    }

    /// The packet that `bytes` encode, or `None` where they encode none.
    pub fn decode(bytes: &[u8]) -> (r: Option<Packet>)
        ensures
            match r {
                Some(p) => decoded(bytes@) == Some(p@),
                None => decoded(bytes@) is None,
            },
    {
        let ghost bs = bytes@;
        assert(rest(bs, 0) =~= bs);
        match parse_packet(bytes, 0) {
            Some((p, end)) => {
                if end == bytes.len() {
                    proof {
                        assert(bs.subrange(0, end as int) =~= bs);
                        lemma_round_trip(p@);
                    }
                    Some(p)
                } else {
                    proof {
                        if exists|q: PacketView| packet_fits(q) && packet_bytes(q) == bs {
                            let q = choose|q: PacketView| packet_fits(q) && packet_bytes(q) == bs;
                            lemma_begins_self(bs);
                            lemma_span_prefix(bs, 0, end as int);
                            lemma_packet_unique(p@, q, bs);
                        }
                    }
                    None
                }
            },
            None => {
                proof {
                    if exists|q: PacketView| packet_fits(q) && packet_bytes(q) == bs {
                        let q = choose|q: PacketView| packet_fits(q) && packet_bytes(q) == bs;
                        lemma_begins_self(bs);
                    }
                }
                None
            },
        }
    }
}

} // verus!
