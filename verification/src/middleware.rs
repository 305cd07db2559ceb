//! The request gate: a stateless interceptor that decides, for every
//! inbound request, whether it is forwarded to its handler or rejected
//! unauthorized. The exemption set is injected configuration, resolved once
//! when the pipeline is assembled.

use vstd::prelude::*;
use vstd::string::StringSliceAdditionalSpecFns;
use vstd::utf8::{encode_utf8, encode_utf8_decode_utf8};

use crate::auth::{decode_jwt, decode_spec};
use crate::text::bytes_eq;

verus! {

/// The interceptor's decision for one request.
#[derive(Clone, Copy, Debug, PartialEq, Eq, Structural)]
pub enum GateDecision {
    Forward,
    Reject,
}

/// Whether `path` is one of the exempt route identifiers.
pub open spec fn route_exempt(routes: Seq<Seq<char>>, path: Seq<char>) -> bool {
    exists|i: int| 0 <= i < routes.len() && routes[i] == path
}

/// The interception policy: forward when the identity decodes to an unexpired
/// claim set, or the route is exempt; reject otherwise.
pub open spec fn gate_decision(
    routes: Seq<Seq<char>>,
    key: Seq<u8>,
    identity: Seq<u8>,
    path: Seq<char>,
    now: int,
) -> GateDecision {
    let authenticated = match decode_spec(identity, key) {
        Some(c) => now < c.exp,
        None => false,
    };
    if authenticated || route_exempt(routes, path) {
        GateDecision::Forward
    } else {
        GateDecision::Reject
    }
}

/// Middleware factory: carries the exemption set and the signing key the
/// produced interceptors decide with.
pub struct Authentication {
    pub exempt_routes: Vec<String>,
    pub jwt_key: Vec<u8>,
}

/// The per-pipeline interceptor produced by `Authentication`.
pub struct AuthenticationMiddleware {
    pub exempt_routes: Vec<String>,
    pub jwt_key: Vec<u8>,
}

/// An owned copy of a list of route identifiers.
fn clone_routes(routes: &Vec<String>) -> (r: Vec<String>)
    ensures
        r.deep_view() == routes.deep_view(),
{
    let n = routes.len();
    let mut out: Vec<String> = Vec::new();
    let mut i: usize = 0;
    while i < n
        invariant
            i <= n,
            n == routes@.len(),
            out@.len() == i,
            forall|k: int| 0 <= k < i ==> #[trigger] out@[k]@ == routes@[k]@,
        decreases n - i,
    {
        out.push(routes[i].clone());
        i += 1;
    }
    proof {
        assert(out.deep_view() =~= routes.deep_view());
    }
    out
}

impl Authentication {
    /// A factory over the given exemption set and signing key.
    pub fn new(exempt_routes: Vec<String>, jwt_key: Vec<u8>) -> (r: Authentication)
        ensures
            r.exempt_routes.deep_view() == exempt_routes.deep_view(),
            r.jwt_key@ == jwt_key@,
    {
        Authentication { exempt_routes, jwt_key }
    }

    /// Produces an interceptor deciding with this factory's configuration.
    pub fn new_transform(&self) -> (r: AuthenticationMiddleware)
        ensures
            r.exempt_routes.deep_view() == self.exempt_routes.deep_view(),
            r.jwt_key@ == self.jwt_key@,
    {
        AuthenticationMiddleware {
            exempt_routes: clone_routes(&self.exempt_routes),
            jwt_key: crate::text::region_to_vec(self.jwt_key.as_slice(), 0, self.jwt_key.len()),
        }
    }
}

impl AuthenticationMiddleware {
    /// Whether `path` is in this interceptor's exemption set.
    fn is_exempt(&self, path: &str) -> (r: bool)
        ensures
            r == route_exempt(self.exempt_routes.deep_view(), path@),
    {
        let n = self.exempt_routes.len();
        let pb = path.as_bytes();
        let mut i: usize = 0;
        while i < n
            invariant
                i <= n,
                n == self.exempt_routes@.len(),
                pb@ == path.spec_bytes(),
                forall|k: int| 0 <= k < i ==> #[trigger] self.exempt_routes@[k]@ != path@,
            decreases n - i,
        {
            let rb = self.exempt_routes[i].as_str().as_bytes();
            if bytes_eq(rb, pb) {
                proof {
                    let route = self.exempt_routes@[i as int]@;
                    assert(encode_utf8(route) == encode_utf8(path@));
                    encode_utf8_decode_utf8(route);
                    encode_utf8_decode_utf8(path@);
                    assert(route == path@);
                    assert(self.exempt_routes.deep_view()[i as int] == route);
                }
                return true;
            }
            proof {
                let route = self.exempt_routes@[i as int]@;
                if route == path@ {
                    assert(encode_utf8(route) == encode_utf8(path@));
                }
            }
            i += 1;
        }
        proof {
            if route_exempt(self.exempt_routes.deep_view(), path@) {
                let k = choose|k: int|
                    0 <= k < self.exempt_routes.deep_view().len()
                        && self.exempt_routes.deep_view()[k] == path@;
                assert(self.exempt_routes@[k]@ == path@);
            }
        }
        false
    }

    /// Decides one request from its route, its opaque identity string
    /// (empty when absent) and the current time. `Forward` means the
    /// request reaches its handler unchanged; `Reject` means it is answered
    /// unauthorized without invoking the handler.
    pub fn call(&self, path: &str, identity: &str, now: i64) -> (d: GateDecision)
        ensures
            d == gate_decision(
                self.exempt_routes.deep_view(),
                self.jwt_key@,
                identity.spec_bytes(),
                path@,
                now as int,
            ),
    {
        let logged_in = match decode_jwt(identity, self.jwt_key.as_slice(), now) {
            Ok(_) => true,
            Err(_) => false,
        };
        if logged_in || self.is_exempt(path) {
            GateDecision::Forward
        } else {
            GateDecision::Reject
        }
    }
}

/// Law: gate exemption. A request to an exempt route is forwarded whatever
/// its identity holds — present, absent, invalid or expired.
pub proof fn lemma_gate_exemption(
    routes: Seq<Seq<char>>,
    key: Seq<u8>,
    identity: Seq<u8>,
    path: Seq<char>,
    now: int,
)
    requires
        route_exempt(routes, path),
    ensures
        gate_decision(routes, key, identity, path, now) == GateDecision::Forward,
{
}

/// Law: gate rejection. A request to a non-exempt route whose identity does
/// not decode to an unexpired claim set — the empty identity included — is
/// rejected, and so never reaches a handler.
pub proof fn lemma_gate_rejection(
    routes: Seq<Seq<char>>,
    key: Seq<u8>,
    identity: Seq<u8>,
    path: Seq<char>,
    now: int,
)
    requires
        !route_exempt(routes, path),
        match decode_spec(identity, key) {
            Some(c) => now >= c.exp,
            None => true,
        },
    ensures
        gate_decision(routes, key, identity, path, now) == GateDecision::Reject,
{
}

/// The empty identity never decodes, so on a non-exempt route it is always
/// rejected.
pub proof fn lemma_empty_identity_rejected(
    routes: Seq<Seq<char>>,
    key: Seq<u8>,
    path: Seq<char>,
    now: int,
)
    requires
        !route_exempt(routes, path),
    ensures
        gate_decision(routes, key, Seq::<u8>::empty(), path, now) == GateDecision::Reject,
{
    let e = Seq::<u8>::empty();
    assert(crate::auth::find_dot(e, 0) == 0);
    assert(decode_spec(e, key) is None);
}

} // verus!
