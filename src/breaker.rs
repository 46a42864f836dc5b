//! The fault-isolation breaker around datagram handling, from `failsafe`.
use vstd::prelude::*;
use failsafe::{CircuitBreaker, FailurePolicy, Instrument, StateMachine};
use crate::server::{respond_spec, DnsServer, RequestError};

verus! {

/// A circuit breaker; it counts failed calls and, once open, rejects calls
/// until its cool-down ends.
#[verifier::external_type_specification]
#[verifier::external_body]
#[verifier::reject_recursive_types(POLICY)]
#[verifier::reject_recursive_types(INSTRUMENT)]
pub struct ExStateMachine<POLICY, INSTRUMENT>(StateMachine<POLICY, INSTRUMENT>);

/// What came of handing a datagram to the breaker.
pub enum Guarded {
    /// The breaker let the call through; this is what handling gave.
    Handled(Result<Vec<u8>, RequestError>),
    /// The breaker is open and did not call.
    Rejected,
}

/// Relies on `failsafe::CircuitBreaker::call`: when the breaker permits the
/// call it runs the closure once and hands back its result unchanged (as
/// `Error::Inner` for an error); otherwise it returns `Error::Rejected`
/// without running it.
#[verifier::external_body]
fn call_through<POLICY: FailurePolicy, INSTRUMENT: Instrument>(
    breaker: &StateMachine<POLICY, INSTRUMENT>,
    server: &DnsServer,
    data: &[u8],
) -> (r: Guarded)
    requires
        server.wf(),
    ensures
        r matches Guarded::Handled(h) ==> match respond_spec(
            data@,
            server.records_spec(),
            server.top_level_domain_spec(),
        ) {
            Ok(bytes) => h matches Ok(v) && v@ == bytes,
            Err(e) => h == Err::<Vec<u8>, RequestError>(e),
        },
{
    match breaker.call(|| server.handle_request(data)) {
        Ok(v) => Guarded::Handled(Ok(v)),
        Err(failsafe::Error::Inner(e)) => Guarded::Handled(Err(e)),
        Err(failsafe::Error::Rejected) => Guarded::Rejected,
    }
}

/// What the loop does with one datagram.
#[derive(Debug)]
pub enum DatagramAction {
    /// Send these bytes back to the sender.
    Reply(Vec<u8>),
    /// Send nothing; report the failure and go on serving.
    Drop(RequestError),
    /// The breaker is open: stop serving with a fatal error.
    Fatal,
}

impl DnsServer {
    /// Handles a datagram under `breaker`: a reply or a reported failure
    /// while the breaker is closed, a fatal stop once it rejects.
    pub fn serve_datagram<POLICY: FailurePolicy, INSTRUMENT: Instrument>(
        &self,
        breaker: &StateMachine<POLICY, INSTRUMENT>,
        data: &[u8],
    ) -> (r: DatagramAction)
        requires
            self.wf(),
        ensures
            match r {
                DatagramAction::Reply(v) => respond_spec(
                    data@,
                    self.records_spec(),
                    self.top_level_domain_spec(),
                ) == Ok::<Seq<u8>, RequestError>(v@),
                DatagramAction::Drop(e) => respond_spec(
                    data@,
                    self.records_spec(),
                    self.top_level_domain_spec(),
                ) == Err::<Seq<u8>, RequestError>(e),
                DatagramAction::Fatal => true,
            },
    {
        match call_through(breaker, self, data) {
            Guarded::Handled(Ok(v)) => DatagramAction::Reply(v),
            Guarded::Handled(Err(e)) => DatagramAction::Drop(e),
            Guarded::Rejected => DatagramAction::Fatal,
        }
    }
}

} // verus!
