//! There are only finitely many rooms: the bound that makes every search of
//! this crate terminate.

use crate::room::RoomMut;
use vstd::prelude::*;

verus! {

/// A number that stands for a room: its fields, written as the digits of a
/// mixed-radix numeral.
pub open spec fn room_code(m: RoomMut) -> int {
    let flags = (if m.got_key { 1int } else { 0int }) + 2 * (if m.odd_moves_made { 1int } else { 0int });
    let place = m.player_at.x + 0x100 * (m.player_at.y + 0x100 * flags);
    let skelly = m.skelly_at.words[0] + 0x1_0000_0000_0000_0000int * (m.skelly_at.words[1]
        + 0x1_0000_0000_0000_0000int * place);
    m.rocks_at.words[0] + 0x1_0000_0000_0000_0000int * (m.rocks_at.words[1]
        + 0x1_0000_0000_0000_0000int * skelly)
}

/// One more than the largest code of a room.
pub open spec fn room_code_limit() -> int {
    0x400000000000000000000000000000000000000000000000000000000000000000000int
}

proof fn lemma_digit(a: int, q: int, b: int, r: int, base: int)
    requires
        0 <= a < base,
        0 <= b < base,
        a + base * q == b + base * r,
    ensures
        a == b,
        q == r,
{
    assert(base * (q - r) == b - a) by (nonlinear_arith)
        requires
            a + base * q == b + base * r,
    ;
    assert(q == r) by (nonlinear_arith)
        requires
            base * (q - r) == b - a,
            -base < b - a < base,
    ;
}

/// Different rooms have different codes.
pub proof fn lemma_room_code_injective(a: RoomMut, b: RoomMut)
    requires
        room_code(a) == room_code(b),
    ensures
        a == b,
{
    let w: int = 0x1_0000_0000_0000_0000int;
    let fa = (if a.got_key { 1int } else { 0int }) + 2 * (if a.odd_moves_made { 1int } else { 0int });
    let fb = (if b.got_key { 1int } else { 0int }) + 2 * (if b.odd_moves_made { 1int } else { 0int });
    let pa = a.player_at.x + 0x100 * (a.player_at.y + 0x100 * fa);
    let pb = b.player_at.x + 0x100 * (b.player_at.y + 0x100 * fb);
    let sa = a.skelly_at.words[0] + w * (a.skelly_at.words[1] + w * pa);
    let sb = b.skelly_at.words[0] + w * (b.skelly_at.words[1] + w * pb);
    lemma_digit(
        a.rocks_at.words[0] as int,
        a.rocks_at.words[1] + w * sa,
        b.rocks_at.words[0] as int,
        b.rocks_at.words[1] + w * sb,
        w,
    );
    lemma_digit(a.rocks_at.words[1] as int, sa, b.rocks_at.words[1] as int, sb, w);
    lemma_digit(
        a.skelly_at.words[0] as int,
        a.skelly_at.words[1] + w * pa,
        b.skelly_at.words[0] as int,
        b.skelly_at.words[1] + w * pb,
        w,
    );
    lemma_digit(a.skelly_at.words[1] as int, pa, b.skelly_at.words[1] as int, pb, w);
    lemma_digit(
        a.player_at.x as int,
        a.player_at.y + 0x100 * fa,
        b.player_at.x as int,
        b.player_at.y + 0x100 * fb,
        0x100,
    );
    lemma_digit(a.player_at.y as int, fa, b.player_at.y as int, fb, 0x100);
    assert(a.rocks_at.words =~= b.rocks_at.words);
    assert(a.skelly_at.words =~= b.skelly_at.words);
}

proof fn lemma_room_code_bounded(m: RoomMut)
    ensures
        0 <= room_code(m) < room_code_limit(),
{
}

/// A set is finite when its elements can be told apart by a number below
/// some limit.
pub proof fn lemma_finite_by_code<A>(s: Set<A>, code: spec_fn(A) -> int, limit: int)
    requires
        0 <= limit,
        forall|a: A| s.contains(a) ==> 0 <= #[trigger] code(a) < limit,
        forall|a: A, b: A|
            s.contains(a) && s.contains(b) && #[trigger] code(a) == #[trigger] code(b) ==> a == b,
    ensures
        s.finite(),
{
    let codes = vstd::set_lib::set_int_range(0, limit);
    let decode = |n: int| choose|a: A| s.contains(a) && code(a) == n;
    vstd::set_lib::lemma_int_range(0, limit);
    codes.lemma_map_finite(decode);
    assert forall|a: A| s.contains(a) implies codes.map(decode).contains(a) by {
        let n = code(a);
        assert(codes.contains(n));
        assert(s.contains(decode(n)) && code(decode(n)) == n);
        assert(decode(n) == a);
    }
    assert(s.subset_of(codes.map(decode)));
    vstd::set_lib::lemma_set_subset_finite(codes.map(decode), s);
}

/// The set of all rooms is finite.
pub proof fn lemma_rooms_finite()
    ensures
        Set::<RoomMut>::full().finite(),
{
    let code = |m: RoomMut| room_code(m);
    assert forall|a: RoomMut, b: RoomMut| #[trigger] code(a) == #[trigger] code(b) implies a
        == b by {
        lemma_room_code_injective(a, b);
    }
    assert forall|a: RoomMut| 0 <= #[trigger] code(a) < room_code_limit() by {
        lemma_room_code_bounded(a);
    }
    lemma_finite_by_code(Set::<RoomMut>::full(), code, room_code_limit());
}

/// Each room paired with each number from 0 to `top`.
pub open spec fn levels(top: nat) -> Set<(RoomMut, int)> {
    Set::new(|p: (RoomMut, int)| 0 <= p.1 <= top)
}

/// There are finitely many pairs of a room and a number up to `top`.
pub proof fn lemma_levels_finite(top: nat)
    ensures
        levels(top).finite(),
{
    let base = top + 1;
    let limit = base * room_code_limit();
    let code = |p: (RoomMut, int)| p.1 + base * room_code(p.0);
    assert forall|a: (RoomMut, int)| levels(top).contains(a) implies 0 <= #[trigger] code(a)
        < limit by {
        lemma_room_code_bounded(a.0);
        let r = room_code(a.0);
        let l = room_code_limit();
        assert(0 <= base * r && a.1 + base * r < base * l) by (nonlinear_arith)
            requires
                0 <= a.1 < base,
                0 <= r < l,
        ;
    }
    assert forall|a: (RoomMut, int), b: (RoomMut, int)|
        levels(top).contains(a) && levels(top).contains(b) && #[trigger] code(a)
            == #[trigger] code(b) implies a == b by {
        lemma_digit(a.1, room_code(a.0), b.1, room_code(b.0), base as int);
        lemma_room_code_injective(a.0, b.0);
    }
    assert(0 <= limit) by (nonlinear_arith)
        requires
            0 <= base,
            limit == base * room_code_limit(),
            0 <= room_code_limit(),
    ;
    lemma_finite_by_code(levels(top), code, limit);
}

/// A finite set of rooms never has more elements than there are rooms.
pub proof fn lemma_rooms_bound(rooms: Set<RoomMut>)
    requires
        rooms.finite(),
    ensures
        rooms.len() <= Set::<RoomMut>::full().len(),
{
    lemma_rooms_finite();
    vstd::set_lib::lemma_len_subset(rooms, Set::<RoomMut>::full());
}

} // verus!
