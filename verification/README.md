# direct_reactor

The ownership core of a direct Kafka connection reactor, verified with Verus.

A cluster runtime files every physical lane under a stable owner identity,
groups a broker's lanes into a family with one reserved owner per traffic
class (control, interactive, bulk, long-poll), keeps one seed lane, and
schedules endpoint refreshes over the families in a fair ring. Around it sit
the decisions a lane makes when it admits requests and SASL stages, when it
settles authentication replies and commits, and when it configures a
connection attempt.

Layout:

- `src/` — the verified library.
  - `runtime.rs`: the cluster runtime and its ownership invariant (`wf`):
    lane filing, family installation and sparse activation, removal,
    retirement, drain, the seed with its kept replacement offer,
    endpoint-refresh fences and the refresh schedule. The transactions that
    build lane plans and start lanes (`install_resolved_family`,
    `activate_resolved_lane`, `install_resolved_seed`,
    `replace_resolved_seed`, `retry_pending_resolved_seed`) take the plan
    factory and the lane starter as closures; their contracts say which
    plan each lane is started from (for a family, lane `i` from the plan of
    traffic class `i`), that building stops at the first failed plan, and
    that a failed family start hands back the lanes already started, last
    started first, for the caller to roll back.
  - `family.rs`, `lane.rs`, `identity.rs`, `traffic.rs`, `endpoint.rs`,
    `bounds.rs`, `nonzero.rs`, `error.rs`: the values the runtime is made of.
  - `admission.rs`: request admission and the step machines of a public
    request's and a SASL stage's measured commit.
  - `authentication.rs`: SASL reservation, commit and reply settlement.
  - `connect.rs`, `simulated.rs`, `observation.rs`: connection attempts, the
    modeled transport with its frame splitting, and route observation.
- `tests/`: executable scenarios against the compiled library.
- `app/`: conversions from the connection engine's and driver core's values
  into the library's, and the shared handle of the modeled transport.

Outside calls made from `src/` are two trusted wrappers: the driver clock's
`Moment::checked_add` and the retained-byte conversion `RetainedBytes::try_from`.
