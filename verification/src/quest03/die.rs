//! A die: its faces, and the rule by which they turn from roll to roll.

use vstd::prelude::*;
use crate::quest03::numbers::{parse_signed, parse_unsigned, signed_of, unsigned_of};
use crate::text::{
    fields_of, split_fields, split_first, split_once, strip_prefix, strip_suffix, trim, trimmed,
    views, without_prefix, without_suffix,
};

verus! {

/// What a die is at one moment.
pub struct DieView {
    /// The number of the die.
    pub id: int,
    /// The faces, the one on top first.
    pub faces: Seq<i64>,
    /// The seed that the die was made with.
    pub seed: int,
    /// The pulse, which changes with every roll.
    pub pulse: int,
    /// How often the die was rolled.
    pub roll_number: int,
}

/// A die.
pub struct Die {
    id: usize,
    faces: Vec<i64>,
    seed: i64,
    pulse: i64,
    roll_number: i64,
}

/// The list `s` turned left by `k` places: what was at place `k` comes
/// first.
pub open spec fn rotated(s: Seq<i64>, k: int) -> Seq<i64> {
    s.subrange(k, s.len() as int) + s.subrange(0, k)
}

/// The die after one more roll, and the face that the roll shows. The roll
/// turns the faces left by the number of the roll times the pulse, and the
/// face then on top is shown. The new pulse is the old one and that product
/// together, reduced by the seed, and one, the number of the roll and the
/// seed more. A die whose seed is not positive cannot be rolled, nor one
/// for which a number on the way is more than 64 bits with sign hold, or
/// the product more than a `usize` holds.
pub open spec fn rolled(d: DieView) -> Option<(DieView, int)> {
    let n = d.roll_number + 1;
    let spin = n * d.pulse;
    let len = d.faces.len() as int;
    if d.seed <= 0 || d.pulse <= 0 || d.roll_number < 0 || len == 0 {
        None
    } else if n > i64::MAX || spin > i64::MAX || spin > usize::MAX || d.pulse + spin > i64::MAX {
        None
    } else {
        let faces = rotated(d.faces, spin % len);
        let pulse = (d.pulse + spin) % d.seed + (1 + n + d.seed);
        if 1 + n + d.seed > i64::MAX || pulse > i64::MAX {
            None
        } else {
            Some((DieView { id: d.id, faces, seed: d.seed, pulse, roll_number: n }, faces[0] as int))
        }
    }
}

/// `": "`, which parts the number of a die from the rest.
pub open spec fn after_id() -> Seq<u8> {
    seq![58u8, 32u8]
}

/// `" "`, which parts the faces from the seed.
pub open spec fn space() -> Seq<u8> {
    seq![32u8]
}

/// `"faces=["`.
pub open spec fn faces_open() -> Seq<u8> {
    seq![102u8, 97u8, 99u8, 101u8, 115u8, 61u8, 91u8]
}

/// `"]"`.
pub open spec fn faces_close() -> Seq<u8> {
    seq![93u8]
}

/// `"seed="`.
pub open spec fn seed_open() -> Seq<u8> {
    seq![115u8, 101u8, 101u8, 100u8, 61u8]
}

/// The numbers that the fields spell, if each spells one.
pub open spec fn numbers_of(fields: Seq<Seq<u8>>) -> Option<Seq<i64>> {
    if forall|k: int| 0 <= k < fields.len() ==> signed_of(#[trigger] fields[k]) is Some {
        Some(Seq::new(fields.len(), |k: int| signed_of(fields[k]).unwrap() as i64))
    } else {
        None
    }
}

/// The faces that `faces=[a,b,c]` lists.
pub open spec fn faces_of(s: Seq<u8>) -> Option<Seq<i64>> {
    match without_prefix(s, faces_open()) {
        None => None,
        Some(rest) => match without_suffix(rest, faces_close()) {
            None => None,
            Some(list) => numbers_of(fields_of(list, 44)),
        },
    }
}

/// The seed that `seed=n` names.
pub open spec fn seed_of(s: Seq<u8>) -> Option<int> {
    match without_prefix(s, seed_open()) {
        None => None,
        Some(digits) => signed_of(digits),
    }
}

/// The die that a line such as `1: faces=[1,2,4,-1,5,7,9] seed=3`
/// describes, not yet rolled, its pulse being its seed. Blanks at the ends
/// of the line do not count. A line of any other form describes no die.
pub open spec fn die_of(line: Seq<u8>) -> Option<DieView> {
    match split_first(trimmed(line), after_id()) {
        None => None,
        Some((num, data)) => match split_first(data, space()) {
            None => None,
            Some((faces, seed)) => match (unsigned_of(num), faces_of(faces), seed_of(seed)) {
                (Some(id), Some(faces), Some(seed)) => Some(
                    DieView { id, faces, seed, pulse: seed, roll_number: 0 },
                ),
                _ => None,
            },
        },
    }
}

impl View for Die {
    type V = DieView;

    closed spec fn view(&self) -> DieView {
        DieView {
            id: self.id as int,
            faces: self.faces@,
            seed: self.seed as int,
            pulse: self.pulse as int,
            roll_number: self.roll_number as int,
        }
    }
}

/// Reads the faces that `faces=[a,b,c]` lists.
fn parse_faces(s: &[u8]) -> (r: Option<Vec<i64>>)
    ensures
        match r {
            Some(faces) => faces_of(s@) == Some(faces@) && faces@.len() > 0,
            None => faces_of(s@) is None,
        },
{
    let open: [u8; 7] = [102, 97, 99, 101, 115, 61, 91];
    let close: [u8; 1] = [93];
    proof {
        assert(open@ =~= faces_open());
        assert(close@ =~= faces_close());
    }
    let rest = match strip_prefix(s, &open) {
        Some(rest) => rest,
        None => {
            return None;
        },
    };
    let list = match strip_suffix(rest, &close) {
        Some(list) => list,
        None => {
            return None;
        },
    };
    let fields = split_fields(list, 44);
    let ghost fs = fields_of(list@, 44);
    let mut faces: Vec<i64> = Vec::new();
    let mut k: usize = 0;
    while k < fields.len()
        invariant
            k <= fields@.len(),
            fs == views(fields@),
            fs == fields_of(list@, 44),
            fields@.len() > 0,
            without_prefix(s@, faces_open()) == Some(rest@),
            without_suffix(rest@, faces_close()) == Some(list@),
            faces@.len() == k,
            forall|i: int| 0 <= i < k ==> signed_of(#[trigger] fs[i]) == Some(faces@[i] as int),
        decreases fields@.len() - k,
    {
        proof {
            assert(fs[k as int] == fields@[k as int]@);
        }
        match parse_signed(fields[k]) {
            Some(v) => {
                faces.push(v);
            },
            None => {
                return None;
            },
        }
        k += 1;
    }
    proof {
        assert(faces@ =~= numbers_of(fs).unwrap());
        assert(fs.len() > 0);
    }
    Some(faces)
}

impl Die {
    #[verifier::type_invariant]
    spec fn sound(self) -> bool {
        &&& self.faces@.len() > 0
        &&& self.roll_number >= 0
        &&& self.seed > 0 ==> self.pulse > 0
    }

    /// Reads a die from a line such as `1: faces=[1,2,4,-1,5,7,9] seed=3`.
    pub fn parse(s: &[u8]) -> (r: Option<Die>)
        ensures
            match r {
                Some(die) => die_of(s@) == Some(die@),
                None => die_of(s@) is None,
            },
    {
        let colon: [u8; 2] = [58, 32];
        let blank: [u8; 1] = [32];
        let seed_is: [u8; 5] = [115, 101, 101, 100, 61];
        proof {
            assert(colon@ =~= after_id());
            assert(blank@ =~= space());
            assert(seed_is@ =~= seed_open());
        }
        let (num, data) = match split_once(trim(s), &colon) {
            Some(parts) => parts,
            None => {
                return None;
            },
        };
        let (faces, seed) = match split_once(data, &blank) {
            Some(parts) => parts,
            None => {
                return None;
            },
        };
        let id = match parse_unsigned(num) {
            Some(id) => id,
            None => {
                return None;
            },
        };
        let faces = match parse_faces(faces) {
            Some(faces) => faces,
            None => {
                return None;
            },
        };
        let seed = match strip_prefix(seed, &seed_is) {
            Some(digits) => match parse_signed(digits) {
                Some(seed) => seed,
                None => {
                    return None;
                },
            },
            None => {
                return None;
            },
        };
        Some(Die { id, faces, seed, pulse: seed, roll_number: 0 })
    }

    /// The number of the die.
    pub fn id(&self) -> (id: usize)
        ensures
            id == self@.id,
    {
        self.id
    }

    /// Rolls the die, and returns the face that the roll shows. A die that
    /// cannot be rolled stays as it is, and nothing is returned.
    pub fn roll(&mut self) -> (r: Option<i64>)
        ensures
            match r {
                Some(face) => rolled(old(self)@) == Some((final(self)@, face as int)),
                None => rolled(old(self)@) is None && final(self)@ == old(self)@,
            },
    {
        proof {
            use_type_invariant(&*self);
        }
        if self.seed <= 0 || self.roll_number == i64::MAX {
            return None;
        }
        let n = self.roll_number + 1;
        let spin = match n.checked_mul(self.pulse) {
            Some(spin) => spin,
            None => {
                proof {
                    assert(n * self.pulse > 0) by (nonlinear_arith)
                        requires
                            n > 0,
                            self.pulse > 0,
                    ;
                }
                return None;
            },
        };
        proof {
            assert(n * self.pulse > 0) by (nonlinear_arith)
                requires
                    n > 0,
                    self.pulse > 0,
            ;
        }
        if spin as u64 > usize::MAX as u64 {
            return None;
        }
        let mixed = match self.pulse.checked_add(spin) {
            Some(mixed) => mixed,
            None => {
                return None;
            },
        };
        let more = match n.checked_add(1) {
            Some(more) => match more.checked_add(self.seed) {
                Some(more) => more,
                None => {
                    return None;
                },
            },
            None => {
                return None;
            },
        };
        let pulse = match (mixed % self.seed).checked_add(more) {
            Some(pulse) => pulse,
            None => {
                return None;
            },
        };
        let len = self.faces.len();
        let turn = (spin as usize) % len;
        let mut faces: Vec<i64> = Vec::new();
        let mut i: usize = 0;
        while i < len
            invariant
                i <= len,
                len == self.faces@.len(),
                turn < len,
                faces@.len() == i,
                forall|j: int| 0 <= j < i ==> #[trigger] faces@[j] == rotated(self.faces@, turn as int)[j],
            decreases len - i,
        {
            let from = if i < len - turn {
                i + turn
            } else {
                i - (len - turn)
            };
            faces.push(self.faces[from]);
            i += 1;
        }
        proof {
            assert(faces@ =~= rotated(self.faces@, turn as int));
        }
        let face = faces[0];
        self.roll_number = n;
        self.faces = faces;
        self.pulse = pulse;
        Some(face)
    }
}

} // verus!
