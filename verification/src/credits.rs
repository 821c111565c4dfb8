use vstd::prelude::*;

verus! {

/// The name of the star with the given billing position.
pub open spec fn star_name(star_index: int) -> Seq<char> {
    if star_index == 0 {
        "Bonnie"@
    } else if star_index == 1 {
        "Clyde"@
    } else if star_index == 2 {
        "Mephistopheles"@
    } else {
        "some minor character"@
    }
}

/// The name printed for the star at `star_index` in the credits.
pub fn star(star_index: usize) -> (name: &'static str)
    ensures
        name@ == star_name(star_index as int),
        star_index == 0 ==> name@ == "Bonnie"@,
        star_index == 1 ==> name@ == "Clyde"@,
        star_index == 2 ==> name@ == "Mephistopheles"@,
        star_index >= 3 ==> name@ == "some minor character"@,
{
    match star_index {
        0 => "Bonnie",
        1 => "Clyde",
        2 => "Mephistopheles",
        _ => "some minor character",
    }
}

/// Only the first three billing positions name a star: Bonnie, Clyde and
/// Mephistopheles; every later position is "some minor character".
pub proof fn lemma_star_names(star_index: int)
    requires
        star_index >= 0,
    ensures
        star_index == 0 ==> star_name(star_index) == "Bonnie"@,
        star_index == 1 ==> star_name(star_index) == "Clyde"@,
        star_index == 2 ==> star_name(star_index) == "Mephistopheles"@,
        star_index >= 3 ==> star_name(star_index) == "some minor character"@,
{
}

/// The credit line for two co-stars: `"{star} and {costar}"`.
pub fn costarring(star: &str, costar: &str) -> (line: String)
    ensures
        line@ == star@ + " and "@ + costar@,
{
    let mut line = String::from_str(star);
    line.append(" and ");
    line.append(costar);
    line
}

} // verus!
