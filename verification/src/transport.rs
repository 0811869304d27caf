//! Request construction for the device's CGI endpoints.
//!
//! The HTTP call itself is performed outside the library; what is verified
//! here is the shape of every request: which endpoint, which fields, and
//! that the authentication token field always comes first.

use vstd::prelude::*;

verus! {

/// Connection settings for one device; immutable after construction.
#[derive(Debug, Clone, PartialEq, Eq)]
pub struct TomatoClientInternal {
    pub hostname: String,
    pub admin_username: String,
    pub admin_password: String,
    pub http_id: String,
}

pub open spec fn pairs_model(fields: Seq<(String, String)>) -> Seq<(Seq<char>, Seq<char>)> {
    fields.map(|i: int, p: (String, String)| (p.0@, p.1@))
}

impl TomatoClientInternal {
    pub fn new(ip_address: String, admin_username: String, admin_password: String, http_id: String)
        -> (r: TomatoClientInternal)
        ensures
            r.hostname@ == "http://"@ + ip_address@,
            r.admin_username == admin_username,
            r.admin_password == admin_password,
            r.http_id == http_id,
    {
        let hostname = String::from_str("http://").concat(ip_address.as_str());
        TomatoClientInternal { hostname, admin_username, admin_password, http_id }
    }

    /// The body fields of a POST to `endpoint`: the device's authentication
    /// token always first, then the caller's fields in their given order.
    pub fn request_fields(&self, args: Vec<(String, String)>) -> (r: Vec<(String, String)>)
        ensures
            pairs_model(r@) == seq![("_http_id"@, self.http_id@)] + pairs_model(args@),
    {
        let mut r: Vec<(String, String)> = Vec::new();
        r.push((String::from_str("_http_id"), self.http_id.clone()));
        let mut i: usize = 0;
        let ghost args0 = args@;
        while i < args.len()
            invariant
                i <= args.len(),
                args@ == args0,
                pairs_model(r@) == seq![("_http_id"@, self.http_id@)] + pairs_model(
                    args0.take(i as int),
                ),
            decreases args.len() - i,
        {
            let ghost rm0 = pairs_model(r@);
            let ghost e = (args0[i as int].0@, args0[i as int].1@);
            let p = (args[i].0.clone(), args[i].1.clone());
            r.push(p);
            proof {
                assert(pairs_model(r@) =~= rm0.push(e));
                assert(pairs_model(args0.take(i + 1)) =~= pairs_model(args0.take(i as int)).push(
                    e,
                ));
                assert(rm0.push(e) =~= seq![("_http_id"@, self.http_id@)] + pairs_model(
                    args0.take(i as int),
                ).push(e));
                assert(pairs_model(r@) =~= seq![("_http_id"@, self.http_id@)] + pairs_model(
                    args0.take(i + 1),
                ));
            }
            i += 1;
        }
        proof {
            assert(args0.take(args0.len() as int) =~= args0);
            assert(pairs_model(r@) =~= seq![("_http_id"@, self.http_id@)] + pairs_model(args0));
        }
        r
    }
}

/// The field set of the generic remote-shell endpoint, for one command.
pub fn run_command_fields(command: String) -> (r: Vec<(String, String)>)
    ensures
        pairs_model(r@) == seq![
            ("action"@, "execute"@),
            ("nojs"@, "1"@),
            ("working_dir"@, "/www"@),
            ("command"@, command@),
        ],
{
    let mut r: Vec<(String, String)> = Vec::new();
    r.push((String::from_str("action"), String::from_str("execute")));
    r.push((String::from_str("nojs"), String::from_str("1")));
    r.push((String::from_str("working_dir"), String::from_str("/www")));
    r.push((String::from_str("command"), command));
    proof {
        assert(pairs_model(r@) =~= seq![
            ("action"@, "execute"@),
            ("nojs"@, "1"@),
            ("working_dir"@, "/www"@),
            ("command"@, command@),
        ]);
    }
    r
}

/// The field set of the bandwidth-specific CGI action.
pub fn netdev_fields() -> (r: Vec<(String, String)>)
    ensures
        pairs_model(r@) == seq![("exec"@, "netdev"@)],
{
    let mut r: Vec<(String, String)> = Vec::new();
    r.push((String::from_str("exec"), String::from_str("netdev")));
    proof {
        assert(pairs_model(r@) =~= seq![("exec"@, "netdev"@)]);
    }
    r
}

} // verus!
