//! The identifier rules of a level file.

use vstd::prelude::*;
use vstd::string::StringSliceAdditionalSpecFns;
use vstd::utf8::encode_utf8;
use crate::text::{is_snake_case, is_snake_case_id, law_snake_case_bytes};

verus! {

/// Which identifier of a level is not snake_case.
#[derive(Debug, Clone, Copy, PartialEq, Eq, Structural)]
pub enum LevelIdError {
    /// The level's own id.
    LevelId,
    /// The id of the prop at this position.
    PropId(usize),
}

/// Check that the level id and every prop id are snake_case: the level id
/// first, then the props in order, reporting the first that is not.
pub fn validate_level_ids(level_id: &str, prop_ids: &[String]) -> (r: Result<(), LevelIdError>)
    ensures
        !is_snake_case(level_id.spec_bytes()) ==> r == Err::<(), LevelIdError>(LevelIdError::LevelId),
        is_snake_case(level_id.spec_bytes()) ==> match r {
            Ok(()) => forall|i: int|
                0 <= i < prop_ids@.len() ==> is_snake_case(encode_utf8(#[trigger] prop_ids@[i]@)),
            Err(LevelIdError::PropId(i)) => i < prop_ids@.len() && !is_snake_case(
                encode_utf8(prop_ids@[i as int]@),
            ) && forall|j: int| 0 <= j < i ==> is_snake_case(encode_utf8(#[trigger] prop_ids@[j]@)),
            Err(LevelIdError::LevelId) => false,
        },
        r is Ok ==> forall|k: int|
            0 <= k < level_id.spec_bytes().len() ==> (97 <= #[trigger] level_id.spec_bytes()[k] <= 122
                || 48 <= level_id.spec_bytes()[k] <= 57 || level_id.spec_bytes()[k] == 95),
        r is Ok ==> forall|i: int, k: int|
            0 <= i < prop_ids@.len() && 0 <= k < encode_utf8(prop_ids@[i]@).len() ==> (97
                <= #[trigger] encode_utf8(#[trigger] prop_ids@[i]@)[k] <= 122 || 48 <= encode_utf8(
                prop_ids@[i]@,
            )[k] <= 57 || encode_utf8(prop_ids@[i]@)[k] == 95),
{
    proof {
        law_snake_case_bytes(level_id.spec_bytes());
        assert forall|i: int| 0 <= i < prop_ids@.len() implies #[trigger] is_snake_case(
            encode_utf8(prop_ids@[i]@),
        ) ==> (forall|k: int|
            0 <= k < encode_utf8(prop_ids@[i]@).len() ==> (97 <= #[trigger] encode_utf8(
                prop_ids@[i]@,
            )[k] <= 122 || 48 <= encode_utf8(prop_ids@[i]@)[k] <= 57 || encode_utf8(
                prop_ids@[i]@,
            )[k] == 95)) by {
            law_snake_case_bytes(encode_utf8(prop_ids@[i]@));
        }
    }
    if !is_snake_case_id(level_id) {
        return Err(LevelIdError::LevelId);
    }
    let mut i: usize = 0;
    while i < prop_ids.len()
        invariant
            is_snake_case(level_id.spec_bytes()),
            0 <= i <= prop_ids@.len(),
            forall|j: int| 0 <= j < i ==> is_snake_case(encode_utf8(#[trigger] prop_ids@[j]@)),
        decreases prop_ids@.len() - i,
    {
        if !is_snake_case_id(prop_ids[i].as_str()) {
            return Err(LevelIdError::PropId(i));
        }
        i = i + 1;
    }
    Ok(())
}

} // verus!
