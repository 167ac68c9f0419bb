//! The settings that reach the store, and the choices a listing offers.

use vstd::prelude::*;

verus! {

/// Where the artifact store is and how to sign in to it.
pub struct S3Config {
    pub hostname: String,
    pub access_key: String,
    pub secret_key: String,
    pub bucket_name: String,
}

/// Reads the four settings of the store, each by its name, through `read`:
/// `S3_HOSTNAME`, `S3_ACCESSKEY`, `S3_SECRETKEY` and `S3_BUCKET`, in that
/// order.
pub fn read_credentials<F: Fn(&str) -> String>(read: F) -> (c: S3Config)
    requires
        forall|name: &str| read.requires((name,)),
    ensures
        exists|h: &str| h@ == "S3_HOSTNAME"@ && read.ensures((h,), c.hostname),
        exists|a: &str| a@ == "S3_ACCESSKEY"@ && read.ensures((a,), c.access_key),
        exists|s: &str| s@ == "S3_SECRETKEY"@ && read.ensures((s,), c.secret_key),
        exists|b: &str| b@ == "S3_BUCKET"@ && read.ensures((b,), c.bucket_name),
{
    let h = "S3_HOSTNAME";
    let a = "S3_ACCESSKEY";
    let s = "S3_SECRETKEY";
    let b = "S3_BUCKET";
    let hostname = read(h);
    let access_key = read(a);
    let secret_key = read(s);
    let bucket_name = read(b);
    let c = S3Config { hostname, access_key, secret_key, bucket_name };
    assert(read.ensures((h,), c.hostname));
    assert(read.ensures((a,), c.access_key));
    assert(read.ensures((s,), c.secret_key));
    assert(read.ensures((b,), c.bucket_name));
    c
}

/// How a listing of artifacts is shown.
#[derive(Debug, PartialEq, Eq, Clone, Copy)]
pub enum ListFormat {
    /// One key per line, without the listed prefix.
    Flat,
    /// The artifact tree, one node per line.
    Tree,
}

} // verus!
