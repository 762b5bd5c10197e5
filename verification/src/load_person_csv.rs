//! Locations and row types of the social-network person data.  The actual
//! reading of the files is input/output and lives with the callers; here
//! are the path helpers and the plain row types they produce.

use vstd::prelude::*;
use vstd::string::StringExecFns;

verus! {

/// Root directory of the scale-factor-1 social network data.
pub fn social_network_sf1() -> (r: &'static str)
    ensures
        r@ == "/home/rob/S3G2/ldbc_snb_datagen/social_network_sf1"@,
{
    "/home/rob/S3G2/ldbc_snb_datagen/social_network_sf1"
}

/// Root directory of the scale-factor-10 social network data.
pub fn social_network_sf10() -> (r: &'static str)
    ensures
        r@ == "/home/rob/S3G2/ldbc_snb_datagen/social_network_sf10"@,
{
    "/home/rob/S3G2/ldbc_snb_datagen/social_network_sf10"
}

/// Path of the person file under a social-network directory.
pub fn nodes(social_network: &str) -> (r: String)
    ensures
        r@ == social_network@ + "/person_0_0.csv"@,
{
    let mut s: String = social_network.to_owned();
    s.append("/person_0_0.csv");
    s
}

/// Path of the person-knows-person file under a social-network directory.
pub fn edges(social_network: &str) -> (r: String)
    ensures
        r@ == social_network@ + "/person_knows_person_0_0.csv"@,
{
    let mut s: String = social_network.to_owned();
    s.append("/person_knows_person_0_0.csv");
    s
}

/// A person row: the identifier and the name fields kept from the data.
#[derive(Debug)]
pub struct Person {
    pub id: i64,
    pub first_name: String,
    pub last_name: String,
}

/// A friendship row: an edge between two person identifiers.
pub struct Friendship {
    pub p1id: i64,
    pub p2id: i64,
}

} // verus!
