//! Making a device the default and moving every live stream onto it.
//!
//! The work is a conversation with the audio server, and this module holds
//! one side of it: it says what to ask next and, from each answer, decides
//! how to go on. The caller owns the connection. It starts with
//! [`Migration::begin`], carries out the request it is handed, reports the
//! answer to [`Migration::advance`], and repeats until it is told that the
//! migration is finished.
//!
//! The order of the conversation:
//!
//! 1. list the devices, and find the target among them;
//! 2. make the target the default, by its name;
//! 3. list the live streams, afresh;
//! 4. move the streams to the target, one by one, in the order listed.
//!
//! Any failure ends the migration at once. A target that is missing or has
//! no name ends it before the server has been asked to change anything. A
//! stream that cannot be moved ends it where it stands: the streams before
//! it stay moved, the streams after it are not tried.

use crate::device::{indices, ApplicationStream, Device};
use crate::error::{DirectoryError, SwitchError};
use vstd::prelude::*;

verus! {

/// What the migration asks of the audio server.
#[derive(Clone, Debug, PartialEq, Eq)]
pub enum Request {
    /// Report the output devices.
    ListDevices,
    /// Make the device of this name the default.
    SetDefault { name: String },
    /// Report the live streams.
    ListStreams,
    /// Move this stream to this device.
    MoveStream { stream: u32, device: u32 },
}

/// The audio server's answer to the request made last.
#[derive(Clone, Debug, PartialEq, Eq)]
pub enum Reply {
    /// The output devices, in answer to `ListDevices`.
    Devices(Vec<Device>),
    /// The live streams, in answer to `ListStreams`.
    Streams(Vec<ApplicationStream>),
    /// The change asked for was made, in answer to `SetDefault` and to
    /// `MoveStream`.
    Done,
    /// The request failed.
    Failed(DirectoryError),
}

/// What the caller does next.
#[derive(Debug, PartialEq, Eq)]
pub enum Step {
    /// Carry out this request and report the answer.
    Ask(Request),
    /// Stop: the migration has ended, well or badly.
    Finished(Result<(), SwitchError>),
}

/// How far a migration has come.
pub enum Stage {
    /// The devices were asked for.
    Resolving,
    /// The server was asked to change the default.
    SettingDefault,
    /// The streams were asked for.
    ListingStreams,
    /// The server was asked to move the first of `waiting`; the others wait
    /// their turn, in this order.
    Moving { waiting: Seq<u32> },
    /// The migration has ended with `outcome`.
    Over { outcome: Result<(), SwitchError> },
}

/// A migration as the contracts see it: where it is headed and how far it
/// has come.
pub struct Progress {
    /// The identifier of the device that is to become the default.
    pub target: u32,
    /// How far the migration has come.
    pub stage: Stage,
}

/// A migration that has just asked for the devices.
pub open spec fn opening(target: u32) -> Progress {
    Progress { target, stage: Stage::Resolving }
}

/// The first place at which `wanted` stands in `indices`, if it stands there
/// at all.
pub open spec fn first_position(indices: Seq<u32>, wanted: u32) -> Option<int>
    decreases indices.len(),
{
    if indices.len() == 0 {
        None
    } else {
        match first_position(indices.drop_last(), wanted) {
            Some(place) => Some(place),
            None => if indices.last() == wanted {
                Some(indices.len() - 1)
            } else {
                None
            },
        }
    }
}

/// The name under which the target can be made the default: the name of the
/// first listed device with the target's identifier. A target that is not
/// listed is `NotFound`; one that is listed without a name, or with an empty
/// one, is a `Validation` error.
pub open spec fn resolve(devices: Seq<Device>, target: u32) -> Result<String, SwitchError> {
    match first_position(indices(devices), target) {
        Some(place) => match devices[place].name {
            Some(name) => if name@.len() > 0 {
                Ok(name)
            } else {
                Err(SwitchError::Validation { index: target })
            },
            None => Err(SwitchError::Validation { index: target }),
        },
        None => Err(SwitchError::NotFound { index: target }),
    }
}

/// The identifiers of `streams`, in the same order.
pub open spec fn stream_indices(streams: Seq<ApplicationStream>) -> Seq<u32> {
    streams.map_values(|s: ApplicationStream| s.index)
}

/// Why a reply is no success: the failure it reports, or, for a reply that
/// does not belong to the request made, the mismatch.
pub open spec fn fault_of(reply: Reply) -> DirectoryError {
    match reply {
        Reply::Failed(fault) => fault,
        _ => DirectoryError::Mismatch,
    }
}

/// The end of a migration headed for `target`.
pub open spec fn ended(target: u32, outcome: Result<(), SwitchError>) -> (Progress, Step) {
    (Progress { target, stage: Stage::Over { outcome } }, Step::Finished(outcome))
}

/// What follows when the streams in `waiting` are still to be moved: the
/// first of them is moved next, and with none left the migration has
/// succeeded.
pub open spec fn move_next(target: u32, waiting: Seq<u32>) -> (Progress, Step) {
    if waiting.len() == 0 {
        ended(target, Ok(()))
    } else {
        (
            Progress { target, stage: Stage::Moving { waiting } },
            Step::Ask(Request::MoveStream { stream: waiting[0], device: target }),
        )
    }
}

/// How a migration goes on from `at` when the server answers `reply`: where
/// it stands afterwards, and what the caller does next.
///
/// Only the answer that belongs to the request made leads on. Every other
/// reply ends the migration: with the stream that was being moved, where one
/// was, and else with the server's failure as it came. A migration that has
/// ended stays as it is, whatever is reported to it.
pub open spec fn transition(at: Progress, reply: Reply) -> (Progress, Step) {
    match at.stage {
        Stage::Resolving => match reply {
            Reply::Devices(devices) => match resolve(devices@, at.target) {
                Ok(name) => (
                    Progress { target: at.target, stage: Stage::SettingDefault },
                    Step::Ask(Request::SetDefault { name }),
                ),
                Err(e) => ended(at.target, Err(e)),
            },
            _ => ended(at.target, Err(SwitchError::Directory(fault_of(reply)))),
        },
        Stage::SettingDefault => match reply {
            Reply::Done => (
                Progress { target: at.target, stage: Stage::ListingStreams },
                Step::Ask(Request::ListStreams),
            ),
            _ => ended(at.target, Err(SwitchError::Directory(fault_of(reply)))),
        },
        Stage::ListingStreams => match reply {
            Reply::Streams(streams) => move_next(at.target, stream_indices(streams@)),
            _ => ended(at.target, Err(SwitchError::Directory(fault_of(reply)))),
        },
        Stage::Moving { waiting } => match reply {
            Reply::Done => move_next(at.target, waiting.skip(1)),
            _ => ended(
                at.target,
                Err(SwitchError::Migration { stream: waiting[0], cause: fault_of(reply) }),
            ),
        },
        Stage::Over { outcome } => (at, Step::Finished(outcome)),
    }
}

/// What `first_position` finds is the smallest place that holds `wanted`,
/// and it finds nothing only where `wanted` does not occur.
pub proof fn lemma_first_position(indices: Seq<u32>, wanted: u32)
    ensures
        match first_position(indices, wanted) {
            Some(place) => {
                &&& 0 <= place < indices.len()
                &&& indices[place] == wanted
                &&& forall|j: int| 0 <= j < place ==> indices[j] != wanted
            },
            None => !indices.contains(wanted),
        },
    decreases indices.len(),
{
    if indices.len() > 0 {
        let front = indices.drop_last();
        lemma_first_position(front, wanted);
        match first_position(front, wanted) {
            Some(place) => {
                assert(indices[place] == front[place]);
                assert forall|j: int| 0 <= j < place implies indices[j] != wanted by {
                    assert(front[j] == indices[j]);
                }
            },
            None => {
                if indices.last() == wanted {
                    assert forall|j: int| 0 <= j < indices.len() - 1 implies indices[j]
                        != wanted by {
                        assert(front[j] == indices[j]);
                        assert(front.contains(front[j]));
                    }
                } else if indices.contains(wanted) {
                    let j = choose|j: int| 0 <= j < indices.len() && indices[j] == wanted;
                    assert(front[j] == wanted);
                    assert(front.contains(wanted));
                }
            },
        }
    }
}

/// Finds the target among `devices` and returns the name under which it
/// can be made the default.
pub fn resolve_target(devices: &Vec<Device>, target: u32) -> (name: Result<String, SwitchError>)
    ensures
        name == resolve(devices@, target),
{
    let ghost listed = indices(devices@);
    let mut i: usize = 0;
    while i < devices.len()
        invariant
            i <= devices.len(),
            listed == indices(devices@),
            first_position(listed.take(i as int), target) is None,
        decreases devices.len() - i,
    {
        proof {
            assert(listed.take(i + 1).drop_last() =~= listed.take(i as int));
            assert(listed.take(i + 1).last() == devices[i as int].index);
        }
        if devices[i].index == target {
            proof {
                lemma_first_found_early(listed, target, i as int);
            }
            return match &devices[i].name {
                Some(name) => if name.as_str().is_empty() {
                    Err(SwitchError::Validation { index: target })
                } else {
                    Ok(name.clone())
                },
                None => Err(SwitchError::Validation { index: target }),
            };
        }
        i += 1;
    }
    assert(listed.take(devices.len() as int) =~= listed);
    Err(SwitchError::NotFound { index: target })
}

/// What is found in the beginning of a list is found in the whole list.
proof fn lemma_first_found_early(indices: Seq<u32>, wanted: u32, place: int)
    requires
        0 <= place < indices.len(),
        first_position(indices.take(place + 1), wanted) == Some(place),
    ensures
        first_position(indices, wanted) == Some(place),
    decreases indices.len() - place,
{
    if place + 1 < indices.len() {
        let front = indices.drop_last();
        assert(front.take(place + 1) =~= indices.take(place + 1));
        lemma_first_found_early(front, wanted, place);
    } else {
        assert(indices.take(place + 1) =~= indices);
    }
}

/// Where a migration stands, as it is stored.
enum Phase {
    Resolving,
    SettingDefault,
    ListingStreams,
    Moving,
    Over(Result<(), SwitchError>),
}

/// One migration under way: the caller's side of the conversation with the
/// audio server.
pub struct Migration {
    target: u32,
    phase: Phase,
    /// The streams to move, in the order in which the server listed them.
    streams: Vec<u32>,
    /// How many of `streams` have been moved.
    moved: usize,
}

impl View for Migration {
    type V = Progress;

    closed spec fn view(&self) -> Progress {
        Progress {
            target: self.target,
            stage: match self.phase {
                Phase::Resolving => Stage::Resolving,
                Phase::SettingDefault => Stage::SettingDefault,
                Phase::ListingStreams => Stage::ListingStreams,
                Phase::Moving => Stage::Moving { waiting: self.streams@.skip(self.moved as int) },
                Phase::Over(outcome) => Stage::Over { outcome },
            },
        }
    }
}

impl Migration {
    /// While streams are being moved, one of them is under way.
    #[verifier::type_invariant]
    spec fn sound(self) -> bool {
        self.phase is Moving ==> self.moved < self.streams.len()
    }

    /// Starts making the device with identifier `target` the default.
    /// Returns the migration and the first thing to ask of the server.
    pub fn begin(target: u32) -> (start: (Migration, Request))
        ensures
            start.0@ == opening(target),
            start.1 == Request::ListDevices,
    {
        (
            Migration { target, phase: Phase::Resolving, streams: Vec::new(), moved: 0 },
            Request::ListDevices,
        )
    }

    /// The identifier of the device that is to become the default.
    pub fn target(&self) -> (target: u32)
        ensures
            target == self@.target,
    {
        self.target
    }

    /// The outcome of the migration, once it has ended.
    pub fn outcome(&self) -> (outcome: Option<Result<(), SwitchError>>)
        ensures
            outcome == match self@.stage {
                Stage::Over { outcome } => Some(outcome),
                _ => None,
            },
    {
        match self.phase {
            Phase::Over(outcome) => Some(outcome),
            _ => None,
        }
    }

    /// Takes the server's answer to the request made last and says what to
    /// do next.
    pub fn advance(self, reply: Reply) -> (next: (Migration, Step))
        ensures
            next.0@ == transition(self@, reply).0,
            next.1 == transition(self@, reply).1,
    {
        proof {
            use_type_invariant(&self);
        }
        let target = self.target;
        match self.phase {
            Phase::Resolving => match reply {
                Reply::Devices(devices) => match resolve_target(&devices, target) {
                    Ok(name) => (
                        Migration {
                            target,
                            phase: Phase::SettingDefault,
                            streams: self.streams,
                            moved: 0,
                        },
                        Step::Ask(Request::SetDefault { name }),
                    ),
                    Err(e) => Self::end(target, Err(e)),
                },
                other => Self::end(target, Err(SwitchError::Directory(fault(&other)))),
            },
            Phase::SettingDefault => match reply {
                Reply::Done => (
                    Migration {
                        target,
                        phase: Phase::ListingStreams,
                        streams: self.streams,
                        moved: 0,
                    },
                    Step::Ask(Request::ListStreams),
                ),
                other => Self::end(target, Err(SwitchError::Directory(fault(&other)))),
            },
            Phase::ListingStreams => match reply {
                Reply::Streams(streams) => {
                    let listed = indices_of(&streams);
                    assert(listed@.skip(0) =~= listed@);
                    Self::proceed(target, listed, 0)
                },
                other => Self::end(target, Err(SwitchError::Directory(fault(&other)))),
            },
            Phase::Moving => match reply {
                Reply::Done => {
                    assert(self.streams@.skip(self.moved as int).skip(1) =~= self.streams@.skip(
                        self.moved + 1,
                    ));
                    Self::proceed(target, self.streams, self.moved + 1)
                },
                other => Self::end(
                    target,
                    Err(
                        SwitchError::Migration {
                            stream: self.streams[self.moved],
                            cause: fault(&other),
                        },
                    ),
                ),
            },
            Phase::Over(outcome) => (self, Step::Finished(outcome)),
        }
    }

    /// The migration, ended with `outcome`.
    fn end(target: u32, outcome: Result<(), SwitchError>) -> (next: (Migration, Step))
        ensures
            next.0@ == ended(target, outcome).0,
            next.1 == ended(target, outcome).1,
    {
        (
            Migration { target, phase: Phase::Over(outcome), streams: Vec::new(), moved: 0 },
            Step::Finished(outcome),
        )
    }

    /// The migration with the first `moved` of `streams` moved.
    fn proceed(target: u32, streams: Vec<u32>, moved: usize) -> (next: (Migration, Step))
        requires
            moved <= streams.len(),
        ensures
            next.0@ == move_next(target, streams@.skip(moved as int)).0,
            next.1 == move_next(target, streams@.skip(moved as int)).1,
    {
        if moved < streams.len() {
            let stream = streams[moved];
            (
                Migration { target, phase: Phase::Moving, streams, moved },
                Step::Ask(Request::MoveStream { stream, device: target }),
            )
        } else {
            Self::end(target, Ok(()))
        }
    }
}

/// Why `reply` is no success.
fn fault(reply: &Reply) -> (cause: DirectoryError)
    ensures
        cause == fault_of(*reply),
{
    match reply {
        Reply::Failed(fault) => *fault,
        _ => DirectoryError::Mismatch,
    }
}

/// The identifiers of `streams`, in the same order.
fn indices_of(streams: &Vec<ApplicationStream>) -> (listed: Vec<u32>)
    ensures
        listed@ == stream_indices(streams@),
{
    let mut listed: Vec<u32> = Vec::new();
    let mut i: usize = 0;
    while i < streams.len()
        invariant
            i <= streams.len(),
            listed@ == stream_indices(streams@.take(i as int)),
        decreases streams.len() - i,
    {
        listed.push(streams[i].index);
        assert(listed@ =~= stream_indices(streams@.take(i + 1)));
        i += 1;
    }
    assert(streams@.take(streams.len() as int) =~= streams@);
    listed
}

/// The steps handed out, one for each reply, when `replies` are reported in
/// turn to a migration that stands at `from`.
pub open spec fn steps_taken(from: Progress, replies: Seq<Reply>) -> Seq<Step>
    decreases replies.len(),
{
    if replies.len() == 0 {
        Seq::<Step>::empty()
    } else {
        let (next, step) = transition(from, replies.first());
        seq![step] + steps_taken(next, replies.drop_first())
    }
}

/// Whether a step asks the server to change something: its default device,
/// or the device a stream plays on.
pub open spec fn changes_server(step: Step) -> bool {
    match step {
        Step::Ask(Request::SetDefault { .. }) => true,
        Step::Ask(Request::MoveStream { .. }) => true,
        _ => false,
    }
}

/// The requests to move each of `streams` to `target`, in order.
pub open spec fn moves(target: u32, streams: Seq<u32>) -> Seq<Step> {
    Seq::new(
        streams.len(),
        |k: int| Step::Ask(Request::MoveStream { stream: streams[k], device: target }),
    )
}

/// A migration that has ended stays ended: whatever is reported to it, it
/// answers with its outcome and asks for nothing.
pub proof fn lemma_over_stays_over(
    target: u32,
    outcome: Result<(), SwitchError>,
    replies: Seq<Reply>,
)
    ensures
        steps_taken(Progress { target, stage: Stage::Over { outcome } }, replies) == Seq::new(
            replies.len(),
            |k: int| Step::Finished(outcome),
        ),
    decreases replies.len(),
{
    let over = Progress { target, stage: Stage::Over { outcome } };
    if replies.len() > 0 {
        lemma_over_stays_over(target, outcome, replies.drop_first());
    }
    assert(steps_taken(over, replies) =~= Seq::new(
        replies.len(),
        |k: int| Step::Finished(outcome),
    ));
}

/// A target that cannot be resolved ends the migration with the first
/// answer, and with the error of the resolution.
proof fn lemma_unresolved(target: u32, devices: Vec<Device>, replies: Seq<Reply>)
    requires
        resolve(devices@, target) is Err,
        replies.len() > 0,
        replies[0] == Reply::Devices(devices),
    ensures
        steps_taken(opening(target), replies) == Seq::new(
            replies.len(),
            |k: int| Step::Finished(Err(resolve(devices@, target)->Err_0)),
        ),
{
    let outcome: Result<(), SwitchError> = Err(resolve(devices@, target)->Err_0);
    lemma_over_stays_over(target, outcome, replies.drop_first());
    assert(steps_taken(opening(target), replies) =~= Seq::new(
        replies.len(),
        |k: int| Step::Finished(outcome),
    ));
}

/// A target that does not exist changes nothing. Where no listed device has
/// the target's identifier, the migration ends with `NotFound` as soon as
/// the devices are reported, and neither then nor later asks the server to
/// set a default or to move a stream. (The one request made before that,
/// for the list of devices, changes nothing either.)
pub proof fn lemma_missing_target_changes_nothing(
    target: u32,
    devices: Vec<Device>,
    replies: Seq<Reply>,
)
    requires
        !indices(devices@).contains(target),
        replies.len() > 0,
        replies[0] == Reply::Devices(devices),
    ensures
        steps_taken(opening(target), replies) == Seq::new(
            replies.len(),
            |k: int| Step::Finished(Err(SwitchError::NotFound { index: target })),
        ),
        forall|k: int|
            0 <= k < replies.len() ==> !changes_server(
                #[trigger] steps_taken(opening(target), replies)[k],
            ),
        !changes_server(Step::Ask(Request::ListDevices)),
{
    lemma_first_position(indices(devices@), target);
    lemma_unresolved(target, devices, replies);
}

/// A target without a name changes nothing. Where the first listed device
/// with the target's identifier has no name, or an empty one, the migration
/// ends with a `Validation` error as soon as the devices are reported, and
/// neither then nor later asks the server to set a default or to move a
/// stream.
pub proof fn lemma_unnamed_target_changes_nothing(
    target: u32,
    devices: Vec<Device>,
    replies: Seq<Reply>,
)
    requires
        resolve(devices@, target) == Err::<String, SwitchError>(
            SwitchError::Validation { index: target },
        ),
        replies.len() > 0,
        replies[0] == Reply::Devices(devices),
    ensures
        steps_taken(opening(target), replies) == Seq::new(
            replies.len(),
            |k: int| Step::Finished(Err(SwitchError::Validation { index: target })),
        ),
        forall|k: int|
            0 <= k < replies.len() ==> !changes_server(
                #[trigger] steps_taken(opening(target), replies)[k],
            ),
{
    lemma_unresolved(target, devices, replies);
}

/// Streams are moved one by one, in order. While every move succeeds, a
/// migration that is moving the first of `waiting` asks for the others in
/// turn and then ends well.
pub proof fn lemma_moves_in_order(target: u32, waiting: Seq<u32>)
    requires
        waiting.len() > 0,
    ensures
        steps_taken(
            Progress { target, stage: Stage::Moving { waiting } },
            Seq::new(waiting.len(), |k: int| Reply::Done),
        ) == moves(target, waiting.skip(1)).push(Step::Finished(Ok(()))),
    decreases waiting.len(),
{
    let at = Progress { target, stage: Stage::Moving { waiting } };
    let replies = Seq::new(waiting.len(), |k: int| Reply::Done);
    let rest = waiting.skip(1);
    let expected = moves(target, rest).push(Step::Finished(Ok(())));
    assert(replies.first() == Reply::Done);
    if rest.len() == 0 {
        lemma_over_stays_over(target, Ok(()), replies.drop_first());
        assert(steps_taken(at, replies) =~= expected);
    } else {
        lemma_moves_in_order(target, rest);
        assert(replies.drop_first() =~= Seq::new(rest.len(), |k: int| Reply::Done));
        let later = moves(target, rest.skip(1)).push(Step::Finished(Ok(())));
        assert(steps_taken(at, replies) == seq![
            Step::Ask(Request::MoveStream { stream: rest[0], device: target }),
        ] + later);
        let taken = steps_taken(at, replies);
        assert(moves(target, rest.skip(1)).len() == rest.len() - 1);
        assert(taken.len() == expected.len());
        assert forall|k: int| 0 <= k < expected.len() implies expected[k] == taken[k] by {
            if 0 < k < rest.len() {
                assert(rest.skip(1)[k - 1] == rest[k]);
                assert(taken[k] == later[k - 1]);
            } else if k == rest.len() {
                assert(taken[k] == later[k - 1]);
            }
        }
        assert(taken =~= expected);
    }
}

/// A migration in which nothing fails. With a target that resolves to
/// `name`, the server is asked, in this order: to make `name` the default,
/// to list the streams, and to move each listed stream to the target, in
/// the order listed. Then the migration ends well.
pub proof fn lemma_complete_run(
    target: u32,
    devices: Vec<Device>,
    name: String,
    streams: Vec<ApplicationStream>,
)
    requires
        resolve(devices@, target) == Ok::<String, SwitchError>(name),
    ensures
        steps_taken(
            opening(target),
            seq![Reply::Devices(devices), Reply::Done, Reply::Streams(streams)] + Seq::new(
                streams@.len(),
                |k: int| Reply::Done,
            ),
        ) == seq![Step::Ask(Request::SetDefault { name }), Step::Ask(Request::ListStreams)]
            + moves(target, stream_indices(streams@)).push(Step::Finished(Ok(()))),
{
    let listed = stream_indices(streams@);
    let confirmations = Seq::new(streams@.len(), |k: int| Reply::Done);
    let replies = seq![Reply::Devices(devices), Reply::Done, Reply::Streams(streams)]
        + confirmations;
    let expected = seq![Step::Ask(Request::SetDefault { name }), Step::Ask(Request::ListStreams)]
        + moves(target, listed).push(Step::Finished(Ok(())));
    let second = Progress { target, stage: Stage::SettingDefault };
    let third = Progress { target, stage: Stage::ListingStreams };
    let after_second = replies.drop_first();
    let after_third = after_second.drop_first();
    assert(replies.first() == Reply::Devices(devices));
    assert(after_second.first() == Reply::Done);
    assert(after_third.first() == Reply::Streams(streams));
    assert(after_third.drop_first() =~= confirmations);
    let tail = steps_taken(third, after_third);
    if listed.len() == 0 {
        lemma_over_stays_over(target, Ok(()), confirmations);
        assert(tail =~= seq![Step::Finished(Ok(()))]);
    } else {
        lemma_moves_in_order(target, listed);
        let at = Progress { target, stage: Stage::Moving { waiting: listed } };
        assert(tail == seq![
            Step::Ask(Request::MoveStream { stream: listed[0], device: target }),
        ] + steps_taken(at, confirmations));
        assert forall|k: int| 0 <= k < listed.len() + 1 implies tail[k] == moves(
            target,
            listed,
        ).push(Step::Finished(Ok(())))[k] by {
            if 0 < k < listed.len() {
                assert(listed.skip(1)[k - 1] == listed[k]);
            }
        }
        assert(tail =~= moves(target, listed).push(Step::Finished(Ok(()))));
    }
    assert(steps_taken(second, after_second) == seq![Step::Ask(Request::ListStreams)] + tail);
    assert(steps_taken(opening(target), replies) == seq![
        Step::Ask(Request::SetDefault { name }),
    ] + steps_taken(second, after_second));
    assert(steps_taken(opening(target), replies) =~= expected);
}

/// The first stream that cannot be moved ends the migration. It ends with
/// a `Migration` error that names that stream, and the streams that were
/// waiting behind it are never asked for: from then on the migration asks
/// for nothing at all.
pub proof fn lemma_failed_move_stops(
    target: u32,
    waiting: Seq<u32>,
    cause: DirectoryError,
    later: Seq<Reply>,
)
    requires
        waiting.len() > 0,
    ensures
        steps_taken(
            Progress { target, stage: Stage::Moving { waiting } },
            seq![Reply::Failed(cause)] + later,
        ) == Seq::new(
            later.len() + 1,
            |k: int| Step::Finished(Err(SwitchError::Migration { stream: waiting[0], cause })),
        ),
{
    let at = Progress { target, stage: Stage::Moving { waiting } };
    let replies = seq![Reply::Failed(cause)] + later;
    let outcome: Result<(), SwitchError> = Err(
        SwitchError::Migration { stream: waiting[0], cause },
    );
    assert(replies.first() == Reply::Failed(cause));
    assert(replies.drop_first() =~= later);
    lemma_over_stays_over(target, outcome, later);
    assert(steps_taken(at, replies) =~= Seq::new(
        later.len() + 1,
        |k: int| Step::Finished(outcome),
    ));
}

} // verus!
