//! The thread that decodes images, as steps between its calls.
use crate::frame::DecodedFrame;
use crate::listing::path_views;
use crate::path::ImagePath;
use vstd::prelude::*;

verus! {

/// What the loader is told.
#[derive(Debug)]
pub enum LoaderCommand {
    Batch { generation: u64, paths: Vec<ImagePath> },
    Stop,
}

/// What the loader tells.
#[derive(Debug)]
pub enum LoaderEvent {
    Loaded { generation: u64, frame: DecodedFrame },
    Failed { generation: u64, path: ImagePath, message: String },
}

/// What a call of the loader has given.
#[derive(Debug)]
pub enum LoaderInput {
    /// A command has come.
    Received(LoaderCommand),
    /// No command has come: there is none yet, or there will be none any more.
    Nothing,
    /// A file has been decoded.
    Decoded(DecodedFrame),
    /// A file cannot be decoded.
    Undecodable(String),
    /// An event has been sent, or nobody listens any more.
    Sent(bool),
}

/// The call that the loader makes next.
#[derive(Debug)]
pub enum LoaderAction {
    /// Wait for a command.
    Receive,
    /// Look for a command without waiting.
    Poll,
    Decode(ImagePath),
    Send(LoaderEvent),
    Finish,
}

#[derive(Clone, Copy, Debug, PartialEq, Eq, Structural)]
pub enum Phase {
    /// Without a batch.
    Waiting,
    /// A batch has come, newer ones may follow.
    Draining,
    /// Before a file of the batch.
    Checking,
    Decoding,
    /// A frame is being sent.
    Delivering,
    /// A failure is being sent.
    Reporting,
    Finished,
}

/// The state of the loader: its phase, its batch, and its place in that batch.
pub struct LoaderState {
    pub phase: Phase,
    pub generation: u64,
    pub paths: Seq<Seq<u8>>,
    pub at: nat,
}

impl LoaderState {
    pub open spec fn finished(self) -> LoaderState {
        LoaderState { phase: Phase::Finished, ..self }
    }

    /// With a batch that has just come.
    pub open spec fn draining(generation: u64, paths: Seq<Seq<u8>>) -> LoaderState {
        LoaderState { phase: Phase::Draining, generation, paths, at: 0 }
    }

    /// At a place of the batch, or done with it.
    pub open spec fn working(self, at: nat) -> LoaderState {
        LoaderState {
            phase: if at < self.paths.len() {
                Phase::Checking
            } else {
                Phase::Waiting
            },
            at,
            ..self
        }
    }

    /// Whether the place is inside the batch wherever a file is at hand.
    pub open spec fn consistent(self) -> bool {
        match self.phase {
            Phase::Checking | Phase::Decoding | Phase::Delivering | Phase::Reporting => self.at
                < self.paths.len(),
            _ => true,
        }
    }

    /// What follows a command.
    pub open spec fn told(self, command: LoaderCommand) -> LoaderState {
        match command {
            LoaderCommand::Batch { generation, paths } => LoaderState::draining(
                generation,
                path_views(paths@),
            ),
            LoaderCommand::Stop => self.finished(),
        }
    }

    /// What follows an input, where it is one that the loader waits for.
    pub open spec fn after(self, input: LoaderInput) -> Option<LoaderState> {
        match (self.phase, input) {
            (Phase::Waiting, LoaderInput::Received(command)) => Some(self.told(command)),
            (Phase::Waiting, LoaderInput::Nothing) => Some(self.finished()),
            (Phase::Draining, LoaderInput::Received(command)) => Some(self.told(command)),
            (Phase::Draining, LoaderInput::Nothing) => Some(self.working(0)),
            (Phase::Checking, LoaderInput::Received(command)) => Some(self.told(command)),
            (Phase::Checking, LoaderInput::Nothing) => Some(
                LoaderState { phase: Phase::Decoding, ..self },
            ),
            (Phase::Decoding, LoaderInput::Decoded(_)) => Some(
                LoaderState { phase: Phase::Delivering, ..self },
            ),
            (Phase::Decoding, LoaderInput::Undecodable(_)) => Some(
                LoaderState { phase: Phase::Reporting, ..self },
            ),
            (Phase::Delivering, LoaderInput::Sent(heard)) => Some(
                if heard {
                    self.working(self.at + 1)
                } else {
                    self.finished()
                },
            ),
            (Phase::Reporting, LoaderInput::Sent(_)) => Some(self.working(self.at + 1)),
            _ => None,
        }
    }

    /// Whether an action is the call that the loader makes in this state, which followed `input`.
    pub open spec fn asks(self, input: LoaderInput, action: LoaderAction) -> bool {
        match self.phase {
            Phase::Waiting => action is Receive,
            Phase::Draining | Phase::Checking => action is Poll,
            Phase::Decoding => action matches LoaderAction::Decode(path) && path@
                == self.paths[self.at as int],
            Phase::Delivering | Phase::Reporting => action matches LoaderAction::Send(event)
                && event.tells(self.report(input)),
            Phase::Finished => action is Finish,
        }
    }

    /// What is told of the file at hand.
    pub open spec fn report(self, outcome: LoaderInput) -> Report {
        Report { generation: self.generation, path: self.paths[self.at as int], outcome }
    }

    /// Whether the loader looks for a command.
    pub open spec fn listens(self) -> bool {
        self.phase == Phase::Waiting || self.phase == Phase::Draining || self.phase
            == Phase::Checking
    }

    /// What the call of the loader gives where the given commands wait and no other ones come,
    /// files are decoded as `decode` says, and all events are heard.
    pub open spec fn reply(
        self,
        queue: Seq<LoaderCommand>,
        decode: spec_fn(Seq<u8>) -> LoaderInput,
    ) -> LoaderInput {
        if self.listens() {
            if queue.len() > 0 {
                LoaderInput::Received(queue[0])
            } else {
                LoaderInput::Nothing
            }
        } else if self.phase == Phase::Decoding {
            decode(self.paths[self.at as int])
        } else {
            LoaderInput::Sent(true)
        }
    }

    /// A bound of the calls that the loader makes before it needs another command.
    pub open spec fn work_left(self) -> nat {
        let count = if self.at < self.paths.len() {
            (self.paths.len() - self.at) as nat
        } else {
            0
        };
        match self.phase {
            Phase::Finished => 0,
            Phase::Waiting => 1,
            Phase::Draining => 4 * self.paths.len() + 5,
            Phase::Checking => 4 * count + 4,
            Phase::Decoding => 4 * count + 3,
            Phase::Delivering | Phase::Reporting => 4 * count + 2,
        }
    }
}

/// What an event tells of a file: how it has been decoded, for which request.
pub struct Report {
    pub generation: u64,
    pub path: Seq<u8>,
    pub outcome: LoaderInput,
}

impl LoaderEvent {
    pub open spec fn tells(self, report: Report) -> bool {
        match self {
            LoaderEvent::Loaded { generation, frame } => generation == report.generation
                && report.outcome == LoaderInput::Decoded(frame),
            LoaderEvent::Failed { generation, path, message } => generation == report.generation
                && path@ == report.path && report.outcome == LoaderInput::Undecodable(message),
        }
    }
}

/// All that the loader tells from a state on where the given commands wait and no other ones come.
pub open spec fn reports(
    state: LoaderState,
    queue: Seq<LoaderCommand>,
    decode: spec_fn(Seq<u8>) -> LoaderInput,
) -> Seq<Report>
    decreases queue.len(), state.work_left(),
{
    let input = state.reply(queue, decode);
    let waiting = if state.listens() && queue.len() > 0 {
        queue.drop_first()
    } else {
        queue
    };
    match state.after(input) {
        None => seq![],
        Some(next) => {
            let told = if next.phase == Phase::Delivering || next.phase == Phase::Reporting {
                seq![next.report(input)]
            } else {
                seq![]
            };
            told + reports(next, waiting, decode)
        },
    }
}

/// What is told of a batch that is decoded as a whole.
pub open spec fn batch_reports(
    generation: u64,
    paths: Seq<Seq<u8>>,
    decode: spec_fn(Seq<u8>) -> LoaderInput,
) -> Seq<Report> {
    Seq::new(paths.len(), |i: int| Report { generation, path: paths[i], outcome: decode(paths[i]) })
}

/// The state after some inputs; one that is not waited for changes nothing.
pub open spec fn run(state: LoaderState, inputs: Seq<LoaderInput>) -> LoaderState
    decreases inputs.len(),
{
    if inputs.len() == 0 {
        state
    } else {
        let next = match state.after(inputs[0]) {
            Some(next) => next,
            None => state,
        };
        run(next, inputs.drop_first())
    }
}

/// The loader.
#[derive(Debug)]
pub struct Loader {
    phase: Phase,
    generation: u64,
    paths: Vec<ImagePath>,
    at: usize,
}

impl View for Loader {
    type V = LoaderState;

    closed spec fn view(&self) -> LoaderState {
        LoaderState {
            phase: self.phase,
            generation: self.generation,
            paths: path_views(self.paths@),
            at: self.at as nat,
        }
    }
}

impl Loader {
    /// A loader that waits for its first command.
    pub fn new() -> (r: Self)
        ensures
            r@ == (LoaderState { phase: Phase::Waiting, generation: 0, paths: seq![], at: 0 }),
            r@.consistent(),
    {
        let loader = Loader { phase: Phase::Waiting, generation: 0, paths: Vec::new(), at: 0 };
        assert(loader@.paths =~= seq![]);
        loader
    }

    fn tell(&mut self, command: LoaderCommand) -> (action: LoaderAction)
        ensures
            final(self)@ == old(self)@.told(command),
            action is Finish <==> command is Stop,
            action is Poll <==> command is Batch,
    {
        match command {
            LoaderCommand::Batch { generation, paths } => {
                self.phase = Phase::Draining;
                self.generation = generation;
                self.paths = paths;
                self.at = 0;
                LoaderAction::Poll
            },
            LoaderCommand::Stop => {
                self.phase = Phase::Finished;
                LoaderAction::Finish
            },
        }
    }

    fn work(&mut self, at: usize) -> (action: LoaderAction)
        ensures
            final(self)@ == old(self)@.working(at as nat),
            action is Poll <==> at < old(self)@.paths.len(),
            action is Receive <==> at >= old(self)@.paths.len(),
    {
        self.at = at;
        if at < self.paths.len() {
            self.phase = Phase::Checking;
            LoaderAction::Poll
        } else {
            self.phase = Phase::Waiting;
            LoaderAction::Receive
        }
    }

    /// Takes what the last call has given and tells the next call; nothing where the input is not
    /// one that the last call gives.
    pub fn step(&mut self, input: LoaderInput) -> (r: Option<LoaderAction>)
        requires
            old(self)@.consistent(),
        ensures
            final(self)@.consistent(),
            r is None <==> old(self)@.after(input) is None,
            r is None ==> final(self)@ == old(self)@,
            r is Some ==> Some(final(self)@) == old(self)@.after(input),
            r matches Some(action) ==> final(self)@.asks(input, action),
    {
        match (self.phase, input) {
            (Phase::Waiting, LoaderInput::Received(command)) => Some(self.tell(command)),
            (Phase::Waiting, LoaderInput::Nothing) => {
                self.phase = Phase::Finished;
                Some(LoaderAction::Finish)
            },
            (Phase::Draining, LoaderInput::Received(command)) => Some(self.tell(command)),
            (Phase::Draining, LoaderInput::Nothing) => Some(self.work(0)),
            (Phase::Checking, LoaderInput::Received(command)) => Some(self.tell(command)),
            (Phase::Checking, LoaderInput::Nothing) => {
                self.phase = Phase::Decoding;
                Some(LoaderAction::Decode(self.paths[self.at].clone()))
            },
            (Phase::Decoding, LoaderInput::Decoded(frame)) => {
                self.phase = Phase::Delivering;
                Some(
                    LoaderAction::Send(LoaderEvent::Loaded { generation: self.generation, frame }),
                )
            },
            (Phase::Decoding, LoaderInput::Undecodable(message)) => {
                self.phase = Phase::Reporting;
                Some(
                    LoaderAction::Send(
                        LoaderEvent::Failed {
                            generation: self.generation,
                            path: self.paths[self.at].clone(),
                            message,
                        },
                    ),
                )
            },
            (Phase::Delivering, LoaderInput::Sent(heard)) => {
                assert(self.at < self.paths.len());
                if heard {
                    Some(self.work(self.at + 1))
                } else {
                    self.phase = Phase::Finished;
                    Some(LoaderAction::Finish)
                }
            },
            (Phase::Reporting, LoaderInput::Sent(_)) => {
                assert(self.at < self.paths.len());
                Some(self.work(self.at + 1))
            },
            _ => None,
        }
    }
}

/// The newest batch wins: while a batch has not been started, or is between two files, a newer one
/// takes its place as a whole.
pub proof fn newest_batch_wins(state: LoaderState, generation: u64, paths: Vec<ImagePath>)
    requires
        state.phase == Phase::Waiting || state.phase == Phase::Draining || state.phase
            == Phase::Checking,
    ensures
        state.after(LoaderInput::Received(LoaderCommand::Batch { generation, paths })) == Some(
            LoaderState::draining(generation, path_views(paths@)),
        ),
{
}

/// Of several batches that are waiting only the last one is started.
pub proof fn waiting_batches_are_dropped(
    state: LoaderState,
    older: Seq<LoaderInput>,
    generation: u64,
    paths: Vec<ImagePath>,
)
    requires
        state.phase == Phase::Waiting || state.phase == Phase::Draining,
        forall|i: int|
            0 <= i < older.len() ==> (#[trigger] older[i] matches LoaderInput::Received(command)
                && command is Batch),
    ensures
        run(
            state,
            older.push(
                LoaderInput::Received(LoaderCommand::Batch { generation, paths }),
            ).push(LoaderInput::Nothing),
        ) == LoaderState::draining(generation, path_views(paths@)).working(0),
    decreases older.len(),
{
    let last = LoaderInput::Received(LoaderCommand::Batch { generation, paths });
    let all = older.push(last).push(LoaderInput::Nothing);
    if older.len() == 0 {
        let rest = all.drop_first();
        assert(rest =~= seq![LoaderInput::Nothing]);
        assert(rest.drop_first() =~= seq![]);
        reveal_with_fuel(run, 3);
    } else {
        let rest = older.drop_first();
        assert(all.drop_first() =~= rest.push(last).push(LoaderInput::Nothing));
        assert(all[0] == older[0]);
        assert forall|i: int| 0 <= i < rest.len() implies (
        #[trigger] rest[i] matches LoaderInput::Received(command) && command is Batch) by {
            assert(rest[i] == older[i + 1]);
        }
        let next = state.after(older[0])->0;
        waiting_batches_are_dropped(next, rest, generation, paths);
    }
}

/// The command to stop ends the loader wherever it looks for commands, and an ended loader stays so.
pub proof fn stop_ends_the_loader(state: LoaderState, later: Seq<LoaderInput>)
    requires
        state.phase == Phase::Waiting || state.phase == Phase::Draining || state.phase
            == Phase::Checking,
    ensures
        run(state, seq![LoaderInput::Received(LoaderCommand::Stop)] + later).phase
            == Phase::Finished,
{
    let all = seq![LoaderInput::Received(LoaderCommand::Stop)] + later;
    assert(all.drop_first() =~= later);
    lemma_finished_stays(state.finished(), later);
}

proof fn lemma_finished_stays(state: LoaderState, inputs: Seq<LoaderInput>)
    requires
        state.phase == Phase::Finished,
    ensures
        run(state, inputs) == state,
    decreases inputs.len(),
{
    if inputs.len() > 0 {
        lemma_finished_stays(state, inputs.drop_first());
    }
}

/// The inputs of one file that is decoded without a newer command.
pub open spec fn file_inputs(outcome: LoaderInput) -> Seq<LoaderInput> {
    seq![LoaderInput::Nothing, outcome, LoaderInput::Sent(true)]
}

/// The inputs of files that are decoded without a newer command.
pub open spec fn undisturbed(outcomes: Seq<LoaderInput>) -> Seq<LoaderInput>
    decreases outcomes.len(),
{
    if outcomes.len() == 0 {
        seq![]
    } else {
        file_inputs(outcomes[0]) + undisturbed(outcomes.drop_first())
    }
}

/// One file after the other is decoded, a failure being no reason to stop: after the first
/// `outcomes.len()` files the loader is at the next one.
pub proof fn files_are_decoded_in_order(state: LoaderState, outcomes: Seq<LoaderInput>)
    requires
        state == state.working(state.at),
        state.at + outcomes.len() <= state.paths.len(),
        forall|i: int|
            0 <= i < outcomes.len() ==> (#[trigger] outcomes[i] is Decoded || outcomes[i] is Undecodable),
    ensures
        run(state, undisturbed(outcomes)) == state.working(state.at + outcomes.len()),
    decreases outcomes.len(),
{
    if outcomes.len() > 0 {
        let rest = outcomes.drop_first();
        let outcome = outcomes[0];
        let all = undisturbed(outcomes);
        assert(all.drop_first().drop_first().drop_first() =~= undisturbed(rest));
        let decoding = LoaderState { phase: Phase::Decoding, ..state };
        assert(state.after(all[0]) == Some(decoding));
        assert(all.drop_first()[0] == outcome);
        let sending = decoding.after(outcome)->0;
        assert(all.drop_first().drop_first()[0] == LoaderInput::Sent(true));
        let next = state.working(state.at + 1);
        assert(sending.after(LoaderInput::Sent(true)) == Some(next));
        assert(next == next.working(next.at));
        assert forall|i: int| 0 <= i < rest.len() implies (#[trigger] rest[i] is Decoded
            || rest[i] is Undecodable) by {
            assert(rest[i] == outcomes[i + 1]);
        }
        files_are_decoded_in_order(next, rest);
        reveal_with_fuel(run, 4);
        assert(run(state, all) == run(next, undisturbed(rest)));
    }
}

/// Whatever comes, the place of the loader stays inside its batch.
pub proof fn place_stays_in_batch(state: LoaderState, inputs: Seq<LoaderInput>)
    requires
        state.consistent(),
    ensures
        run(state, inputs).consistent(),
    decreases inputs.len(),
{
    if inputs.len() > 0 {
        let next = match state.after(inputs[0]) {
            Some(next) => next,
            None => state,
        };
        place_stays_in_batch(next, inputs.drop_first());
    }
}

proof fn lemma_batch_from(state: LoaderState, decode: spec_fn(Seq<u8>) -> LoaderInput)
    requires
        state == state.working(state.at),
        state.at <= state.paths.len(),
        forall|path: Seq<u8>| #[trigger] decode(path) is Decoded || decode(path) is Undecodable,
    ensures
        reports(state, seq![], decode) == batch_reports(
            state.generation,
            state.paths,
            decode,
        ).skip(state.at as int),
    decreases state.paths.len() - state.at,
{
    let none = Seq::<LoaderCommand>::empty();
    let all = batch_reports(state.generation, state.paths, decode);
    if state.at == state.paths.len() {
        reveal_with_fuel(reports, 3);
        assert(reports(state, none, decode) =~= all.skip(state.at as int));
    } else {
        let path = state.paths[state.at as int];
        let decoding = LoaderState { phase: Phase::Decoding, ..state };
        let outcome = decode(path);
        let sending = decoding.after(outcome)->0;
        let next = state.working(state.at + 1);
        assert(state.after(LoaderInput::Nothing) == Some(decoding));
        assert(sending.after(LoaderInput::Sent(true)) == Some(next));
        assert(next == next.working(next.at));
        lemma_batch_from(next, decode);
        let last = reports(next, none, decode);
        assert(reports(sending, none, decode) =~= last);
        assert(reports(decoding, none, decode) == seq![sending.report(outcome)] + reports(
            sending,
            none,
            decode,
        ));
        assert(reports(state, none, decode) =~= seq![sending.report(outcome)] + last);
        assert(reports(state, none, decode) =~= all.skip(state.at as int));
    }
}

proof fn lemma_drained(
    state: LoaderState,
    queue: Seq<LoaderCommand>,
    decode: spec_fn(Seq<u8>) -> LoaderInput,
)
    requires
        state.phase == Phase::Draining,
        forall|path: Seq<u8>| #[trigger] decode(path) is Decoded || decode(path) is Undecodable,
    ensures
        reports(state, queue, decode) == if exists|i: int|
            0 <= i < queue.len() && #[trigger] queue[i] is Stop {
            seq![]
        } else if queue.len() == 0 {
            batch_reports(state.generation, state.paths, decode)
        } else {
            last_batch_reports(queue, decode)
        },
    decreases queue.len(),
{
    if queue.len() == 0 {
        let next = state.working(0);
        assert(next == next.working(next.at));
        lemma_batch_from(next, decode);
        assert(queue =~= seq![]);
        let all = batch_reports(state.generation, state.paths, decode);
        assert(all.skip(0) =~= all);
        assert(reports(state, queue, decode) =~= all);
    } else {
        let rest = queue.drop_first();
        let next = state.told(queue[0]);
        assert(reports(state, queue, decode) =~= reports(next, rest, decode));
        match queue[0] {
            LoaderCommand::Stop => {
                assert(reports(next, rest, decode) == Seq::<Report>::empty());
            },
            LoaderCommand::Batch { generation, paths } => {
                lemma_drained(next, rest, decode);
                if exists|i: int| 0 <= i < rest.len() && #[trigger] rest[i] is Stop {
                    let i = choose|i: int| 0 <= i < rest.len() && #[trigger] rest[i] is Stop;
                    assert(queue[i + 1] is Stop);
                } else {
                    assert forall|i: int| 0 <= i < queue.len() implies !(
                    #[trigger] queue[i] is Stop) by {
                        if i > 0 {
                            assert(rest[i - 1] == queue[i]);
                        }
                    }
                    if rest.len() > 0 {
                        assert(rest.last() == queue.last());
                    }
                }
            },
        }
    }
}

/// What is told of the last command of a queue.
pub open spec fn last_batch_reports(
    queue: Seq<LoaderCommand>,
    decode: spec_fn(Seq<u8>) -> LoaderInput,
) -> Seq<Report> {
    match queue.last() {
        LoaderCommand::Batch { generation, paths } => batch_reports(
            generation,
            path_views(paths@),
            decode,
        ),
        LoaderCommand::Stop => seq![],
    }
}

/// Where all commands wait before the loader starts: without a batch, or with a command to stop
/// among them, nothing is told. Else every file of the last batch is told of, in its order, for its
/// generation, and as it has been decoded; a failure keeps none of the later ones back.
pub proof fn last_batch_is_told(
    state: LoaderState,
    queue: Seq<LoaderCommand>,
    decode: spec_fn(Seq<u8>) -> LoaderInput,
)
    requires
        state.phase == Phase::Waiting,
        forall|path: Seq<u8>| #[trigger] decode(path) is Decoded || decode(path) is Undecodable,
    ensures
        reports(state, queue, decode) == if queue.len() == 0 || (exists|i: int|
            0 <= i < queue.len() && #[trigger] queue[i] is Stop) {
            seq![]
        } else {
            last_batch_reports(queue, decode)
        },
{
    if queue.len() == 0 {
        reveal_with_fuel(reports, 3);
        assert(reports(state, queue, decode) =~= seq![]);
    } else {
        // A waiting loader takes its first command as a draining one does.
        let draining = LoaderState { phase: Phase::Draining, ..state };
        let rest = queue.drop_first();
        assert(state.told(queue[0]) == draining.told(queue[0]));
        assert(reports(state, queue, decode) =~= reports(state.told(queue[0]), rest, decode));
        assert(reports(draining, queue, decode) =~= reports(draining.told(queue[0]), rest, decode));
        lemma_drained(draining, queue, decode);
    }
}

/// A loader that nobody listens to any more ends when a frame is not heard; an unheard failure does
/// not end it. One that waits and gets no command any more ends, too.
pub proof fn unheard_frames_end_the_loader(state: LoaderState, heard: bool)
    requires
        state.consistent(),
    ensures
        state.phase == Phase::Delivering ==> (state.after(
            LoaderInput::Sent(heard),
        ) matches Some(next) && (next.phase == Phase::Finished <==> !heard)),
        state.phase == Phase::Reporting ==> (state.after(
            LoaderInput::Sent(heard),
        ) matches Some(next) && next.phase != Phase::Finished),
        state.phase == Phase::Waiting ==> (state.after(LoaderInput::Nothing) matches Some(next)
            && next.phase == Phase::Finished),
{
}

/// Before every file the loader looks for a newer command, and it decodes the file at its place
/// where there is none.
pub proof fn files_are_checked_before_decoding(
    state: LoaderState,
    input: LoaderInput,
    action: LoaderAction,
    next: LoaderState,
)
    requires
        state.consistent(),
        state.after(input) == Some(next),
        next.asks(input, action),
    ensures
        action is Decode ==> state.phase == Phase::Checking && input is Nothing,
        action matches LoaderAction::Decode(path) ==> path@ == state.paths[state.at as int],
        state.phase == Phase::Checking && input is Nothing ==> action is Decode,
        action is Finish <==> next.phase == Phase::Finished,
        action is Send <==> state.phase == Phase::Decoding,
        action is Receive <==> next.phase == Phase::Waiting,
{
}

/// What the loader sends is about the file at its place and the batch that asked for it: a decoded
/// frame as it is, or the reason why there is none.
pub proof fn events_are_about_their_file(
    state: LoaderState,
    input: LoaderInput,
    event: LoaderEvent,
    next: LoaderState,
)
    requires
        state.phase == Phase::Decoding,
        state.consistent(),
        state.after(input) == Some(next),
        next.asks(input, LoaderAction::Send(event)),
    ensures
        event matches LoaderEvent::Loaded { generation, frame } ==> generation == state.generation
            && input == LoaderInput::Decoded(frame),
        event matches LoaderEvent::Failed { generation, path, message } ==> generation
            == state.generation && path@ == state.paths[state.at as int] && input
            == LoaderInput::Undecodable(message),
        event is Loaded <==> input is Decoded,
{
}

} // verus!
