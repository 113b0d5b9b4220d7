//! The three modifiers between a ground-truth annotation and a detection,
//! in percentage points, and the score that they give a pair.

use vstd::prelude::*;
use crate::error::ScoreError;
use crate::geometry::UNIT;
use crate::records::{text_of, SignAnnotation, SignDetection};
use crate::sign_class::SignClass;
use crate::text::lowercase_of;

verus! {

/// The single-segment class that stands for every class below it.
pub const UMBRELLA: u8 = 8;

impl SignClass {
    /// Number of segments; 0 for "not applicable".
    pub open spec fn arity(self) -> int {
        match self {
            SignClass::Single(_) => 1,
            SignClass::Double(_, _) => 2,
            SignClass::Triple(_, _, _) => 3,
            SignClass::Na => 0,
        }
    }

    /// The first segment, if there is one.
    pub open spec fn first_segment(self) -> Option<u8> {
        match self {
            SignClass::Single(a) => Some(a),
            SignClass::Double(a, _) => Some(a),
            SignClass::Triple(a, _, _) => Some(a),
            SignClass::Na => None,
        }
    }

    /// A single-segment class that ground truth must not carry.
    pub open spec fn is_stray_single(self) -> bool {
        self matches SignClass::Single(n) && n != UMBRELLA
    }

    /// Whether this is a single-segment class that ground truth must not
    /// carry.
    pub fn stray_single(self) -> (r: bool)
        ensures
            r == self.is_stray_single(),
    {
        match self {
            SignClass::Single(n) => n != UMBRELLA,
            _ => false,
        }
    }
}

/// The class modifier of a pair whose ground-truth class is not a stray
/// single; `None` when the classes are incompatible.
pub open spec fn class_modifier(gt: SignClass, det: SignClass) -> Option<int> {
    if gt.arity() >= 2 && gt == det {
        Some(0)
    } else if gt is Triple && det is Double && gt.truncated() == det {
        Some(-20)
    } else if gt.arity() >= 2 && det is Single && gt.first_segment() == det.first_segment() {
        Some(-70)
    } else if gt == SignClass::Single(UMBRELLA) && det.first_segment() == Some(UMBRELLA) {
        Some(0)
    } else if gt is Na {
        Some(0)
    } else {
        None
    }
}

/// The modifier for the temporary flag.
pub open spec fn temporary_modifier(gt: bool, det: Option<bool>) -> int {
    match det {
        Some(true) => if gt {
            100
        } else {
            -50
        },
        Some(false) => if gt {
            -50
        } else {
            0
        },
        None => 0,
    }
}

/// A text without its spaces and with every comma turned into a period.
pub open spec fn squeezed(s: Seq<char>) -> Seq<char> {
    s.filter(|c: char| c != ' ').map_values(
        |c: char|
            if c == ',' {
                '.'
            } else {
                c
            },
    )
}

/// The form in which two auxiliary texts are compared.
pub open spec fn normalized(s: Seq<char>) -> Seq<char> {
    lowercase_of(squeezed(s))
}

/// The modifier for two auxiliary texts that are already in normal form.
pub open spec fn normal_data_modifier(gt: Option<Seq<char>>, det: Option<Seq<char>>) -> int {
    match (gt, det) {
        (Some(a), Some(b)) => if a == b {
            200
        } else {
            -50
        },
        (None, Some(_)) => -50,
        _ => 0,
    }
}

/// The modifier for the auxiliary texts of a pair.
pub open spec fn data_modifier(gt: Option<Seq<char>>, det: Option<Seq<char>>) -> int {
    match (gt, det) {
        (Some(a), Some(b)) => if normalized(a) == normalized(b) {
            200
        } else {
            -50
        },
        (None, Some(_)) => -50,
        _ => 0,
    }
}

/// The score of a pair, in hundredths of the unit of the shape score: the
/// shape score scaled by the modifiers, or 0 once they take away everything.
pub open spec fn final_score(shape: int, k: int) -> int {
    if k > -100 {
        shape * (100 + k)
    } else {
        0
    }
}

/// Compute k1 in percents.
///
/// `Ok(None)` says that the classes are incompatible. A ground-truth class
/// that is a single segment other than the umbrella class is an error,
/// whatever the detection.
pub fn compute_k1(gt: SignClass, det: SignClass) -> (r: Result<Option<i32>, ScoreError>)
    ensures
        gt.is_stray_single() <==> r is Err,
        r is Err ==> r == Err::<Option<i32>, ScoreError>(ScoreError::UnexpectedAnnotationClass(gt)),
        r matches Ok(k) ==> (k is Some <==> class_modifier(gt, det) is Some),
        r matches Ok(Some(k)) ==> class_modifier(gt, det) == Some(k as int),
{
    match (gt, det) {
        (SignClass::Double(g1, g2), SignClass::Double(d1, d2)) => {
            if g1 == d1 && g2 == d2 {
                Ok(Some(0))
            } else {
                Ok(None)
            }
        },
        (SignClass::Triple(g1, g2, g3), SignClass::Triple(d1, d2, d3)) => {
            if g1 == d1 && g2 == d2 && g3 == d3 {
                Ok(Some(0))
            } else {
                Ok(None)
            }
        },
        (SignClass::Triple(g1, g2, _), SignClass::Double(d1, d2)) => {
            if g1 == d1 && g2 == d2 {
                Ok(Some(-20))
            } else {
                Ok(None)
            }
        },
        (SignClass::Double(g1, _), SignClass::Single(d1)) => {
            if g1 == d1 {
                Ok(Some(-70))
            } else {
                Ok(None)
            }
        },
        (SignClass::Triple(g1, _, _), SignClass::Single(d1)) => {
            if g1 == d1 {
                Ok(Some(-70))
            } else {
                Ok(None)
            }
        },
        (SignClass::Single(g), d) => {
            if g != UMBRELLA {
                Err(ScoreError::UnexpectedAnnotationClass(gt))
            } else {
                match d {
                    SignClass::Single(d1) => Ok(if d1 == UMBRELLA { Some(0) } else { None }),
                    SignClass::Double(d1, _) => Ok(if d1 == UMBRELLA { Some(0) } else { None }),
                    SignClass::Triple(d1, _, _) => Ok(if d1 == UMBRELLA { Some(0) } else { None }),
                    SignClass::Na => Ok(None),
                }
            }
        },
        (SignClass::Na, _) => Ok(Some(0)),
        _ => Ok(None),
    }
}

/// Strips the spaces from a text, turns its commas into periods and puts it
/// in lowercase.
pub fn normalize(s: &str) -> (r: String)
    ensures
        r@ == normalized(s@),
{
    let mut out = String::new();
    for c in iter: s.chars()
        invariant
            iter.seq() == s@,
            out@ == squeezed(s@.take(iter.index() as int)),
    {
        proof {
            let keep = |c: char| c != ' ';
            let prefix = s@.take(iter.index() as int);
            assert(s@.take(iter.index() + 1) == prefix.push(c));
            prefix.lemma_filter_push(c, keep);
        }
        if c != ' ' {
            out.push(if c == ',' { '.' } else { c });
        }
    }
    assert(s@.take(s@.len() as int) == s@);
    out.as_str().to_lowercase()
}

/// The modifier for two auxiliary texts that `normalize` has prepared.
pub fn data_modifier_of(gt: Option<&String>, det: Option<&String>) -> (r: i32)
    ensures
        r == normal_data_modifier(
            match gt {
                Some(s) => Some(s@),
                None => None,
            },
            match det {
                Some(s) => Some(s@),
                None => None,
            },
        ),
{
    match (gt, det) {
        (Some(a), Some(b)) => if *a == *b {
            200
        } else {
            -50
        },
        (None, Some(_)) => -50,
        _ => 0,
    }
}

/// Compute k2 in percents.
pub fn compute_k2(gt: &SignAnnotation, det: &SignDetection) -> (r: i32)
    ensures
        r == data_modifier(text_of(gt.data), text_of(det.data)),
{
    match (&gt.data, &det.data) {
        (Some(s1), Some(s2)) => {
            let n1 = normalize(s1.as_str());
            let n2 = normalize(s2.as_str());
            data_modifier_of(Some(&n1), Some(&n2))
        },
        (None, Some(_)) => -50,
        _ => 0,
    }
}

/// Compute k3 in percents.
pub fn compute_k3(gt: &SignAnnotation, det: &SignDetection) -> (r: i32)
    ensures
        r == temporary_modifier(gt.temporary, det.temporary),
{
    match (gt.temporary, det.temporary) {
        (true, Some(true)) => 100,
        (false, Some(true)) => -50,
        (true, Some(false)) => -50,
        _ => 0,
    }
}

/// The score of a pair from its shape score and its three modifiers.
pub fn compute_final_score(shape: u64, k1: i32, k2: i32, k3: i32) -> (r: u64)
    requires
        shape <= UNIT,
        -70 <= k1 <= 0,
        -50 <= k2 <= 200,
        -50 <= k3 <= 100,
    ensures
        r == final_score(shape as int, k1 + k2 + k3),
        r <= 400 * UNIT,
{
    let k: i32 = k1 + k2 + k3;
    if k > -100 {
        let factor: u64 = (100 + k) as u64;
        assert(shape * factor <= 400 * UNIT) by (nonlinear_arith)
            requires
                0 <= shape <= UNIT,
                0 <= factor <= 400,
        ;
        shape * factor
    } else {
        0
    }
}

} // verus!
