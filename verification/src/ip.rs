//! The IP source: reading a fix out of the lookup service's `loc` field.
//!
//! The service answers with an optional `loc` string of the form
//! `"lat,lon"`. A missing field, a split that does not yield exactly two
//! parts, and a part that is not a decimal number each fail with their own
//! error; the adapter never panics.

use vstd::prelude::*;

use crate::bytes::lemma_first_ix_char;
use crate::bytes::lemma_first_ix_none;
use crate::bytes::lemma_first_ix_of;
use crate::bytes::spec_first_ix;
use crate::bytes::subvec;
use crate::bytes::COMMA;
use crate::digits::parse_micro_degrees;
use crate::digits::spec_parse_micro;
use crate::errors::LocationError;

verus! {

/// What the IP fix computation returns for a given optional `loc` text:
/// `MissingField` when the field is absent, `MalformedLocation` unless the
/// text splits on `,` into exactly two parts, `ParseError` unless both
/// parts are decimal degree values in range, and otherwise the fix in
/// micro-degrees.
pub open spec fn spec_ip_fix(loc: Option<Seq<u8>>) -> Result<(i32, i32), LocationError> {
    match loc {
        None => Err(LocationError::MissingField),
        Some(s) => match spec_first_ix(s, COMMA) {
            None => Err(LocationError::MalformedLocation),
            Some(c) => {
                let head = s.take(c);
                let tail = s.skip(c + 1);
                if spec_first_ix(tail, COMMA) is Some {
                    Err(LocationError::MalformedLocation)
                } else {
                    match (spec_parse_micro(head), spec_parse_micro(tail)) {
                        (Some(la), Some(lo)) => Ok((la, lo)),
                        _ => Err(LocationError::ParseError),
                    }
                }
            },
        },
    }
}

/// Turn the lookup service's optional `loc` text into a fix, as
/// [`spec_ip_fix`] states.
#[verifier::loop_isolation(false)]
pub fn ip_fix_from_loc(loc: &Option<Vec<u8>>) -> (r: Result<(i32, i32), LocationError>)
    ensures
        (match loc {
            Some(l) => r == spec_ip_fix(Some(l@)),
            None => r == spec_ip_fix(None::<Seq<u8>>),
        }),
{
    match loc {
        None => Err(LocationError::MissingField),
        Some(l) => {
            let n = l.len();
            let mut comma: Option<usize> = None;
            let mut second = false;
            let mut i: usize = 0;
            while i < n
                invariant
                    i <= n,
                    match comma {
                        None => !second && forall|k: int| 0 <= k < i ==> l@[k] != COMMA,
                        Some(c) => c < i && l@[c as int] == COMMA && (forall|k: int|
                            0 <= k < c ==> l@[k] != COMMA) && (second <==> exists|k: int|
                            c < k < i && #[trigger] l@[k] == COMMA),
                    },
                decreases n - i,
            {
                if l[i] == COMMA {
                    match comma {
                        None => {
                            comma = Some(i);
                        },
                        Some(_) => {
                            second = true;
                            proof {
                                assert(l@[i as int] == COMMA);
                            }
                        },
                    }
                }
                i = i + 1;
            }
            match comma {
                None => {
                    proof {
                        lemma_first_ix_none(l@, COMMA);
                    }
                    Err(LocationError::MalformedLocation)
                },
                Some(c) => {
                    let ghost head = l@.take(c as int);
                    let ghost tail = l@.skip(c + 1);
                    proof {
                        lemma_first_ix_of(l@, COMMA, c as int);
                    }
                    if second {
                        proof {
                            let k = choose|k: int| c < k < n && #[trigger] l@[k] == COMMA;
                            assert(tail[k - c - 1] == COMMA);
                            lemma_first_ix_char(tail, COMMA);
                            if spec_first_ix(tail, COMMA) is None {
                                assert(tail[k - c - 1] != COMMA);
                            }
                        }
                        Err(LocationError::MalformedLocation)
                    } else {
                        proof {
                            assert(forall|k: int|
                                0 <= k < tail.len() ==> #[trigger] tail[k] == l@[k + c + 1]);
                            lemma_first_ix_none(tail, COMMA);
                        }
                        let head_v = subvec(l, 0, c);
                        let tail_v = subvec(l, c + 1, n);
                        proof {
                            assert(head_v@ =~= head);
                            assert(tail_v@ =~= tail);
                        }
                        let la = parse_micro_degrees(&head_v);
                        let lo = parse_micro_degrees(&tail_v);
                        match (la, lo) {
                            (Some(a), Some(b)) => Ok((a, b)),
                            _ => Err(LocationError::ParseError),
                        }
                    }
                },
            }
        },
    }
}

} // verus!
