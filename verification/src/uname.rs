//! Kernel-identity family: parses `uname -a` output positionally, keeping a
//! greedy free-text version field between fixed-format neighbours, and
//! projects one labelled info sample.

use vstd::prelude::*;

use crate::error::ParseError;
use crate::prometheus::{joined, metric_model, metrics_model, sample_model, MetricModel,
    PromLabel, PromMetric, PromMetricType, PromSample};
use crate::text::{chars_of, split_from, string_of_chars, trim, trim_chars, views_of};
use crate::transport::TomatoClientInternal;
use crate::value::MetricValue;

verus! {

#[derive(Debug, Clone, PartialEq, Eq)]
pub struct UnameClient {
    pub client: TomatoClientInternal,
}

#[derive(Debug, Clone, PartialEq, Eq)]
pub struct Uname {
    pub domainname: String,
    pub machine: String,
    pub nodename: String,
    pub release: String,
    pub sysname: String,
    pub version: String,
}

pub open spec fn is_alpha(c: char) -> bool {
    ('a' <= c && c <= 'z') || ('A' <= c && c <= 'Z')
}

pub open spec fn is_alnum(c: char) -> bool {
    is_alpha(c) || ('0' <= c && c <= '9')
}

pub open spec fn is_ident_char(c: char) -> bool {
    is_alnum(c) || c == '-' || c == '_'
}

pub open spec fn is_release_char(c: char) -> bool {
    ('0' <= c && c <= '9') || ('a' <= c && c <= 'z') || c == '.' || c == '-'
}

pub open spec fn all_alpha(s: Seq<char>) -> bool {
    forall|i: int| 0 <= i < s.len() ==> is_alpha(#[trigger] s[i])
}

pub open spec fn all_ident(s: Seq<char>) -> bool {
    forall|i: int| 0 <= i < s.len() ==> is_ident_char(#[trigger] s[i])
}

pub open spec fn all_release(s: Seq<char>) -> bool {
    forall|i: int| 0 <= i < s.len() ==> is_release_char(#[trigger] s[i])
}

pub open spec fn all_alnum(s: Seq<char>) -> bool {
    forall|i: int| 0 <= i < s.len() ==> is_alnum(#[trigger] s[i])
}

/// The field views of a parsed uname record, in field order.
pub type UnameModel = (Seq<char>, Seq<char>, Seq<char>, Seq<char>, Seq<char>, Seq<char>);

pub open spec fn uname_model(u: Uname) -> UnameModel {
    (u.domainname@, u.machine@, u.nodename@, u.release@, u.sysname@, u.version@)
}

/// The trimmed body split on single spaces: system name, node name and
/// release first, machine and one trailing word last, and everything
/// between them joined back as the free-text version.  The domain name is
/// not reported by the device and is fixed to `(none)`.
pub open spec fn uname_spec(s: Seq<char>) -> Option<UnameModel> {
    let toks = split_from(trim(s), 0, ' ');
    if toks.len() < 6 {
        Option::None
    } else if !(all_alpha(toks[0]) && toks[0].len() > 0) {
        Option::None
    } else if !(all_ident(toks[1]) && toks[1].len() > 0) {
        Option::None
    } else if !(all_release(toks[2]) && toks[2].len() > 0) {
        Option::None
    } else if !(all_ident(toks[toks.len() - 2]) && toks[toks.len() - 2].len() > 0) {
        Option::None
    } else if !(all_alnum(toks[toks.len() - 1]) && toks[toks.len() - 1].len() > 0) {
        Option::None
    } else {
        Option::Some(
            (
                "(none)"@,
                toks[toks.len() - 2],
                toks[1],
                toks[2],
                toks[0],
                joined(toks.subrange(3, toks.len() - 2), " "@),
            ),
        )
    }
}

fn check_all(v: &Vec<char>, which: u8) -> (r: bool)
    requires
        which < 4,
    ensures
        which == 0 ==> r == all_alpha(v@),
        which == 1 ==> r == all_ident(v@),
        which == 2 ==> r == all_release(v@),
        which == 3 ==> r == all_alnum(v@),
{
    let mut i: usize = 0;
    while i < v.len()
        invariant
            i <= v.len(),
            which < 4,
            which == 0 ==> forall|k: int| 0 <= k < i ==> is_alpha(#[trigger] v@[k]),
            which == 1 ==> forall|k: int| 0 <= k < i ==> is_ident_char(#[trigger] v@[k]),
            which == 2 ==> forall|k: int| 0 <= k < i ==> is_release_char(#[trigger] v@[k]),
            which == 3 ==> forall|k: int| 0 <= k < i ==> is_alnum(#[trigger] v@[k]),
        decreases v.len() - i,
    {
        let c = v[i];
        let alpha = ('a' <= c && c <= 'z') || ('A' <= c && c <= 'Z');
        let digit = '0' <= c && c <= '9';
        let ok = if which == 0 {
            alpha
        } else if which == 1 {
            alpha || digit || c == '-' || c == '_'
        } else if which == 2 {
            digit || ('a' <= c && c <= 'z') || c == '.' || c == '-'
        } else {
            alpha || digit
        };
        if !ok {
            return false;
        }
        i += 1;
    }
    true
}

impl UnameClient {
    pub fn new(client: TomatoClientInternal) -> (r: UnameClient)
        ensures
            r.client == client,
    {
        UnameClient { client }
    }

    /// Parses the uname line; fails exactly when the pattern is absent.
    pub fn parse_body(body: String) -> (r: Result<Uname, ParseError>)
        ensures
            match r {
                Result::Ok(u) => uname_spec(body@) == Option::Some(uname_model(u)),
                Result::Err(_) => uname_spec(body@) is None,
            },
    {
        let chars = chars_of(body.as_str());
        let v = trim_chars(&chars);
        let toks = crate::text::split_at_char(&v, ' ');
        proof {
            assert(views_of(toks@) == split_from(trim(body@), 0, ' '));
        }
        if toks.len() < 6 {
            return Result::Err(ParseError);
        }
        let n = toks.len();
        if !(check_all(&toks[0], 0) && toks[0].len() > 0) {
            return Result::Err(ParseError);
        }
        if !(check_all(&toks[1], 1) && toks[1].len() > 0) {
            return Result::Err(ParseError);
        }
        if !(check_all(&toks[2], 2) && toks[2].len() > 0) {
            return Result::Err(ParseError);
        }
        if !(check_all(&toks[n - 2], 1) && toks[n - 2].len() > 0) {
            return Result::Err(ParseError);
        }
        if !(check_all(&toks[n - 1], 3) && toks[n - 1].len() > 0) {
            return Result::Err(ParseError);
        }
        let mut version = String::new();
        let mut i: usize = 3;
        let ghost tv = views_of(toks@);
        proof {
            assert(tv.subrange(3, 3) =~= Seq::<Seq<char>>::empty());
        }
        while i < n - 2
            invariant
                3 <= i <= n - 2,
                n == toks.len(),
                toks.len() >= 6,
                tv == views_of(toks@),
                version@ == joined(tv.subrange(3, i as int), " "@),
            decreases n - i,
        {
            if i > 3 {
                version.append(" ");
            }
            let piece = string_of_chars(&toks[i]);
            version.append(piece.as_str());
            proof {
                let part = tv.subrange(3, i + 1);
                assert(part.drop_last() =~= tv.subrange(3, i as int));
                assert(part.last() == tv[i as int]);
                assert(version@ =~= joined(part, " "@));
            }
            i += 1;
        }
        let u = Uname {
            domainname: String::from_str("(none)"),
            machine: string_of_chars(&toks[n - 2]),
            nodename: string_of_chars(&toks[1]),
            release: string_of_chars(&toks[2]),
            sysname: string_of_chars(&toks[0]),
            version,
        };
        proof {
            assert(uname_spec(body@) == Option::Some(uname_model(u)));
        }
        Result::Ok(u)
    }

    /// Projects the record to one `node_uname_info` sample whose labels
    /// carry the six fields in alphabetical label order.
    pub fn raw_to_prom(uname: Uname) -> (r: Vec<PromMetric>)
        ensures
            metrics_model(r@) == seq![
                (
                    "node_uname_info"@,
                    "Labeled system information as provided by the uname system call"@,
                    PromMetricType::Gauge,
                    seq![
                        (
                            seq![
                                ("domainname"@, uname.domainname@),
                                ("machine"@, uname.machine@),
                                ("nodename"@, uname.nodename@),
                                ("release"@, uname.release@),
                                ("sysname"@, uname.sysname@),
                                ("version"@, uname.version@),
                            ],
                            MetricValue { units: 1, frac: 0, scale: 0 },
                            Option::<u64>::None,
                        ),
                    ],
                ),
            ],
    {
        let ghost model = (
            "node_uname_info"@,
            "Labeled system information as provided by the uname system call"@,
            PromMetricType::Gauge,
            seq![
                (
                    seq![
                        ("domainname"@, uname.domainname@),
                        ("machine"@, uname.machine@),
                        ("nodename"@, uname.nodename@),
                        ("release"@, uname.release@),
                        ("sysname"@, uname.sysname@),
                        ("version"@, uname.version@),
                    ],
                    MetricValue { units: 1, frac: 0, scale: 0 },
                    Option::<u64>::None,
                ),
            ],
        );
        let mut labels: Vec<PromLabel> = Vec::new();
        labels.push(PromLabel::new("domainname", uname.domainname));
        labels.push(PromLabel::new("machine", uname.machine));
        labels.push(PromLabel::new("nodename", uname.nodename));
        labels.push(PromLabel::new("release", uname.release));
        labels.push(PromLabel::new("sysname", uname.sysname));
        labels.push(PromLabel::new("version", uname.version));
        let sample = PromSample::new(labels, MetricValue::from_int(1), Option::None);
        let mut samples: Vec<PromSample> = Vec::new();
        samples.push(sample);
        let metric = PromMetric::new(
            "node_uname_info",
            "Labeled system information as provided by the uname system call",
            PromMetricType::Gauge,
            samples,
        );
        let mut r: Vec<PromMetric> = Vec::new();
        r.push(metric);
        proof {
            assert(sample_model(r@[0].samples@[0]) =~~= model.3[0]);
            assert(metric_model(r@[0]) =~~= model);
            assert(metrics_model(r@) =~~= seq![model]);
        }
        r
    }

    pub fn get_name(&self) -> (r: String)
        ensures
            r@ == "uname"@,
    {
        String::from_str("uname")
    }
}

} // verus!
