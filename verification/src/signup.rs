//! A signup in two steps: charge a card, and create an account.

use vstd::prelude::*;
use vstd::string::StringSliceAdditionalSpecFns;

use crate::commands;
use crate::context;
use crate::context::EngineErrorView;
use crate::context::WorkflowCtx;
use crate::engine;
use crate::engine::Workflow;
use crate::execution::WorkflowName;
use crate::execution::WorkflowVersion;
use crate::failpoints::FailpointPolicy;
use crate::journal::EventPayload;
use crate::journal::EventView;
use crate::journal::JournalStore;
use crate::laws;
use crate::model;
use crate::model::Effect;
use crate::model::RunState;
use crate::outcomes;
use crate::outcomes::Program;
use crate::random::RngSource;
use crate::recovery;
use crate::recovery::Cmd;
use crate::recovery::Reply;
use crate::step;
use crate::step::IdempotencyKey;
use crate::step::StepError;
use crate::step::StepErrorRecord;
use crate::step::StepErrorView;
use crate::step::StepName;
use crate::text;
use crate::time::Clock;

verus! {

/// The services that a signup calls on. Each call is the side effect of one
/// step.
pub trait SignupServices {
    fn charge_card(&self, key: IdempotencyKey);

    fn create_account(&self, key: IdempotencyKey);
}

/// Two steps against two services: charge a card, and create an account. The
/// output is the confirmation of the charge.
pub struct SignupWorkflow<V: SignupServices> {
    pub services: V,
}

/// What a successful charge is confirmed with.
pub open spec fn charge_confirmation() -> Seq<u8> {
    "{\"charge_id\":\"ch_2026_0719\"}".spec_bytes()
}

/// What a created account is confirmed with.
pub open spec fn account_confirmation() -> Seq<u8> {
    "{\"account_id\":\"acct_2026_0719\"}".spec_bytes()
}

/// The first command of a signup.
pub open spec fn charging() -> Cmd {
    Cmd::Step { name: "charge-card"@, answer: Ok(charge_confirmation()) }
}

/// The second command of a signup.
pub open spec fn creating() -> Cmd {
    Cmd::Step { name: "create-account"@, answer: Ok(account_confirmation()) }
}

/// What a signup asks for: to charge the card, and once that went well, to
/// create the account. If both went well, its output is the confirmation of
/// the charge.
pub open spec fn signup_program() -> Program {
    Program {
        next: |input: Seq<u8>, replies: Seq<Reply>|
            if replies.len() == 0 {
                Some(charging())
            } else if replies.len() == 1 && went_well(replies[0]) {
                Some(creating())
            } else {
                None
            },
        output: |input: Seq<u8>, replies: Seq<Reply>|
            match replies[0] {
                Reply::Answer(Ok(confirmation)) if replies.len() == 2 && went_well(replies[1]) => {
                    Some(confirmation)
                },
                _ => None,
            },
    }
}

/// The reply to a step that went well.
pub open spec fn went_well(reply: Reply) -> bool {
    reply matches Reply::Answer(Ok(_))
}

/// A payload that holds the bytes of `text`.
fn payload_of(text: &str) -> (r: EventPayload)
    ensures
        r@ == text.spec_bytes(),
{
    let mut bytes: Vec<u8> = Vec::new();
    bytes.extend_from_slice(text.as_bytes());
    assert(bytes@ =~= text.spec_bytes());
    EventPayload::new(bytes)
}

/// The name of the first step.
fn charge_card_name() -> (r: StepName)
    ensures
        r@ == "charge-card"@,
{
    proof {
        reveal_strlit("charge-card");
        step::step_names_are_trimmed("charge-card"@);
    }
    StepName::new("charge-card").unwrap()
}

/// The name of the second step.
fn create_account_name() -> (r: StepName)
    ensures
        r@ == "create-account"@,
{
    proof {
        reveal_strlit("create-account");
        step::step_names_are_trimmed("create-account"@);
    }
    StepName::new("create-account").unwrap()
}

/// `text` is how the `Debug` of the step failure `error` puts it.
pub open spec fn tells(text: Seq<char>, error: StepErrorView) -> bool {
    exists|failure: StepError| #[trigger]
        engine::debug_writes(failure, text) && failure@ == error
}

/// `result` reports the step failure `error`.
pub open spec fn reports(result: Result<EventPayload, String>, error: StepErrorView) -> bool {
    result matches Err(text) && tells(text@, error)
}

/// The card was charged for the step at `seq` of the execution.
pub open spec fn card_charged<V: SignupServices>(
    services: V,
    execution: Seq<u8>,
    seq: nat,
) -> bool {
    exists|key: IdempotencyKey|
        key@ == (execution, seq) && #[trigger] call_ensures(V::charge_card, (&services, key), ())
}

/// The account was created for the step at `seq` of the execution.
pub open spec fn account_created<V: SignupServices>(
    services: V,
    execution: Seq<u8>,
    seq: nat,
) -> bool {
    exists|key: IdempotencyKey|
        key@ == (execution, seq) && #[trigger] call_ensures(
            V::create_account,
            (&services, key),
            (),
        )
}

/// What the first step does, and what comes of it: where its closure runs, it
/// charges the card.
pub open spec fn charges<V: SignupServices>(
    services: V,
    before: RunState,
    after: RunState,
    charged: Result<Seq<u8>, StepErrorView>,
) -> bool {
    &&& model::step_does(before, "charge-card"@, after, charged)
    &&& after.effects != before.effects ==> {
        &&& after.effects.last().answer == Ok::<Seq<u8>, Seq<char>>(charge_confirmation())
        &&& card_charged(services, before.execution, before.position)
    }
}

/// What the second step does, and what comes of it: where its closure runs,
/// it creates the account.
pub open spec fn creates<V: SignupServices>(
    services: V,
    before: RunState,
    after: RunState,
    created: Result<Seq<u8>, StepErrorView>,
) -> bool {
    &&& model::step_does(before, "create-account"@, after, created)
    &&& after.effects != before.effects ==> {
        &&& after.effects.last().answer == Ok::<Seq<u8>, Seq<char>>(account_confirmation())
        &&& account_created(services, before.execution, before.position)
    }
}

impl<S: JournalStore, V: SignupServices> Workflow<S> for SignupWorkflow<V> {
    type Error = String;

    open spec fn named(&self) -> Seq<char> {
        "signup"@
    }

    open spec fn versioned(&self) -> Seq<char> {
        "2026.07.19"@
    }

    /// The card is charged first. Only when that went well is the account
    /// created; only when both went well does the signup succeed, with the
    /// result of the charge.
    open spec fn outcome(
        &self,
        input: Seq<u8>,
        before: RunState,
        after: RunState,
        result: Result<EventPayload, String>,
    ) -> bool {
        exists|middle: RunState, charged: Result<Seq<u8>, StepErrorView>| #[trigger]
            charges(self.services, before, middle, charged) && match charged {
                Err(error) => after == middle && reports(result, error),
                Ok(confirmation) => exists|created: Result<Seq<u8>, StepErrorView>| #[trigger]
                    creates(self.services, middle, after, created) && match created {
                        Err(error) => reports(result, error),
                        Ok(_) => result matches Ok(output) && output@ == confirmation,
                    },
            }
    }

    fn name(&self) -> (r: WorkflowName) {
        proof {
            reveal_strlit("signup");
            text::nothing_to_trim("signup"@);
        }
        WorkflowName::new("signup").unwrap()
    }

    fn version(&self) -> (r: WorkflowVersion) {
        proof {
            reveal_strlit("2026.07.19");
            text::nothing_to_trim("2026.07.19"@);
        }
        WorkflowVersion::new("2026.07.19").unwrap()
    }

    fn run<C: Clock, R: RngSource, P: FailpointPolicy>(
        &self,
        ctx: &mut WorkflowCtx<S, C, R, P>,
        input: EventPayload,
    ) -> (r: Result<EventPayload, String>) {
        let ghost before = ctx.state();
        let services = &self.services;
        let charge = |key: IdempotencyKey| -> (r: Result<EventPayload, StepErrorRecord>)
            ensures
                r matches Ok(payload) && payload@ == charge_confirmation(),
                call_ensures(V::charge_card, (services, key), ()),
            {
                services.charge_card(key);
                Ok(payload_of("{\"charge_id\":\"ch_2026_0719\"}"))
            };
        let charged = ctx.step(charge_card_name(), charge);
        let ghost middle = ctx.state();
        proof {
            laws::step_evolves(
                before,
                "charge-card"@,
                middle,
                context::step_result_view(charged),
            );
            assert(charges(self.services, before, middle, context::step_result_view(charged)));
        }
        let charge_result = match charged {
            Ok(result) => result,
            Err(error) => {
                let text = engine::debug_text(&error);
                proof {
                    engine::lemma_debug_writes(&error, text);
                    assert(tells(text@, error@));
                }
                return Err(text);
            },
        };
        let create = |key: IdempotencyKey| -> (r: Result<EventPayload, StepErrorRecord>)
            ensures
                r matches Ok(payload) && payload@ == account_confirmation(),
                call_ensures(V::create_account, (services, key), ()),
            {
                services.create_account(key);
                Ok(payload_of("{\"account_id\":\"acct_2026_0719\"}"))
            };
        let created = ctx.step(create_account_name(), create);
        proof {
            laws::step_evolves(
                middle,
                "create-account"@,
                ctx.state(),
                context::step_result_view(created),
            );
            laws::evolving_is_transitive(before, middle, ctx.state());
            assert(creates(
                self.services,
                middle,
                ctx.state(),
                context::step_result_view(created),
            ));
        }
        match created {
            Ok(_) => Ok(charge_result),
            Err(error) => {
                let text = engine::debug_text(&error);
                proof {
                    engine::lemma_debug_writes(&error, text);
                    assert(tells(text@, error@));
                }
                Err(text)
            },
        }
    }
}

/// A signup does what its program says. So what is proved of crashed and
/// recovered runs of programs holds of it.
pub proof fn signup_asks_for_its_commands<S: JournalStore, V: SignupServices>(
    workflow: SignupWorkflow<V>,
)
    ensures
        outcomes::asks_for::<S, SignupWorkflow<V>>(workflow, signup_program()),
{
    let program = signup_program();
    let none = Seq::<Reply>::empty();
    assert forall|
        input: Seq<u8>,
        before: RunState,
        after: RunState,
        result: Result<EventPayload, String>,
    | #[trigger] Workflow::<S>::outcome(&workflow, input, before, after, result) implies exists|
        replies: Seq<Reply>,
        error: Option<EngineErrorView>,
    | #[trigger]
        outcomes::follows(program, input, none, before, replies, after, error)
            && outcomes::comes_back(result, program, input, replies, error) by {
        let (middle, charged) = choose|middle: RunState, charged: Result<Seq<u8>, StepErrorView>|
         #[trigger]
            charges(workflow.services, before, middle, charged) && match charged {
                Err(error) => after == middle && reports(result, error),
                Ok(confirmation) => exists|created: Result<Seq<u8>, StepErrorView>| #[trigger]
                    creates(workflow.services, middle, after, created) && match created {
                        Err(error) => reports(result, error),
                        Ok(_) => result matches Ok(output) && output@ == confirmation,
                    },
            };
        let first = recovery::step_reply(charged);
        assert((program.next)(input, none) == Some(charging()));
        assert(recovery::command_does(charging(), before, middle, first));
        match first {
            Err(error) => {
                assert(outcomes::follows(program, input, none, before, none, after, Some(error)));
            },
            Ok(reply) => {
                let one = seq![reply];
                assert(none.push(reply) =~= one);
                assert(one.skip(1) =~= none);
                match charged {
                    Err(_) => {
                        assert((program.next)(input, one) is None);
                        assert(outcomes::follows(program, input, one, middle, none, after, None));
                        assert(outcomes::follows(program, input, none, before, one, after, None));
                    },
                    Ok(confirmation) => {
                        let created = choose|created: Result<Seq<u8>, StepErrorView>| #[trigger]
                            creates(workflow.services, middle, after, created) && match created {
                                Err(error) => reports(result, error),
                                Ok(_) => result matches Ok(output) && output@ == confirmation,
                            };
                        let second = recovery::step_reply(created);
                        assert((program.next)(input, one) == Some(creating()));
                        assert(recovery::command_does(creating(), middle, after, second));
                        match second {
                            Err(error) => {
                                let stop = Some(error);
                                assert(outcomes::follows(
                                    program,
                                    input,
                                    one,
                                    middle,
                                    none,
                                    after,
                                    stop,
                                ));
                                assert(outcomes::follows(
                                    program,
                                    input,
                                    none,
                                    before,
                                    one,
                                    after,
                                    stop,
                                ));
                            },
                            Ok(last) => {
                                let both = seq![reply, last];
                                let tail = seq![last];
                                assert(one.push(last) =~= both);
                                assert(tail.skip(1) =~= none);
                                assert(both.skip(1) =~= tail);
                                assert((program.next)(input, both) is None);
                                assert(outcomes::follows(
                                    program,
                                    input,
                                    both,
                                    after,
                                    none,
                                    after,
                                    None,
                                ));
                                assert(outcomes::follows(
                                    program,
                                    input,
                                    one,
                                    middle,
                                    tail,
                                    after,
                                    None,
                                ));
                                assert(outcomes::follows(
                                    program,
                                    input,
                                    none,
                                    before,
                                    both,
                                    after,
                                    None,
                                ));
                            },
                        }
                    },
                }
            },
        }
    }
}

/// A signup that starts afresh, without failpoints and on a store that does
/// not fail, charges the card at its first position and creates the account
/// at the next. It journals both steps in full, each with its confirmation,
/// and nothing else, and gives the confirmation of the charge.
pub proof fn a_signup_charges_and_then_creates<S: JournalStore, V: SignupServices>(
    workflow: SignupWorkflow<V>,
    input: Seq<u8>,
    before: RunState,
    after: RunState,
    result: Result<EventPayload, String>,
)
    requires
        Workflow::<S>::outcome(&workflow, input, before, after, result),
        before.crash is None,
        before.replay is None,
        !before.armed,
        !before.fallible,
    ensures
        ({
            let seq = before.position;
            let next = seq + 1;
            let charge = "{\"charge_id\":\"ch_2026_0719\"}".spec_bytes();
            let account = "{\"account_id\":\"acct_2026_0719\"}".spec_bytes();
            &&& result matches Ok(output) && output@ == charge
            &&& after.journal() == before.journal() + seq![
                EventView::StepScheduled { seq, name: "charge-card"@ },
                EventView::StepStarted { seq, attempt: 1 },
                EventView::StepCompleted { seq, result: charge },
                EventView::StepScheduled { seq: next, name: "create-account"@ },
                EventView::StepStarted { seq: next, attempt: 1 },
                EventView::StepCompleted { seq: next, result: account },
            ]
            &&& after.effects == before.effects + seq![
                Effect { seq, name: "charge-card"@, answer: Ok(charge) },
                Effect { seq: next, name: "create-account"@, answer: Ok(account) },
            ]
            &&& exists|key: IdempotencyKey|
                key@ == (before.execution, seq) && #[trigger] call_ensures(
                    V::charge_card,
                    (&workflow.services, key),
                    (),
                )
            &&& exists|key: IdempotencyKey|
                key@ == (before.execution, next) && #[trigger] call_ensures(
                    V::create_account,
                    (&workflow.services, key),
                    (),
                )
            &&& after.clock == before.clock
            &&& after.draws == before.draws
        }),
{
    let (middle, charged) = choose|middle: RunState, charged: Result<Seq<u8>, StepErrorView>|
     #[trigger]
        charges(workflow.services, before, middle, charged) && match charged {
            Err(error) => after == middle && reports(result, error),
            Ok(confirmation) => exists|created: Result<Seq<u8>, StepErrorView>| #[trigger]
                creates(workflow.services, middle, after, created) && match created {
                    Err(error) => reports(result, error),
                    Ok(_) => result matches Ok(output) && output@ == confirmation,
                },
        };
    commands::live_steps_are_journaled(before, "charge-card"@, middle, charged, None);
    assert(middle.effects.len() != before.effects.len());
    let confirmation = charged->Ok_0;
    let created = choose|created: Result<Seq<u8>, StepErrorView>| #[trigger]
        creates(workflow.services, middle, after, created) && match created {
            Err(error) => reports(result, error),
            Ok(_) => result matches Ok(output) && output@ == confirmation,
        };
    commands::live_steps_are_journaled(middle, "create-account"@, after, created, None);
    assert(after.effects.len() != middle.effects.len());
    let seq = before.position;
    let next = seq + 1;
    let charge = charge_confirmation();
    let account = account_confirmation();
    assert(after.journal() =~= before.journal() + seq![
        EventView::StepScheduled { seq, name: "charge-card"@ },
        EventView::StepStarted { seq, attempt: 1 },
        EventView::StepCompleted { seq, result: charge },
        EventView::StepScheduled { seq: next, name: "create-account"@ },
        EventView::StepStarted { seq: next, attempt: 1 },
        EventView::StepCompleted { seq: next, result: account },
    ]);
    assert(after.effects =~= before.effects + seq![
        Effect { seq, name: "charge-card"@, answer: Ok(charge) },
        Effect { seq: next, name: "create-account"@, answer: Ok(account) },
    ]);
}

/// A signup whose charge is journaled as failed fails, and creates no
/// account: nothing is performed and nothing journaled.
pub proof fn a_failed_charge_creates_nothing<S: JournalStore, V: SignupServices>(
    workflow: SignupWorkflow<V>,
    input: Seq<u8>,
    before: RunState,
    after: RunState,
    result: Result<EventPayload, String>,
    events: Seq<EventView>,
    starts: nat,
)
    requires
        Workflow::<S>::outcome(&workflow, input, before, after, result),
        before.crash is None,
        before.replay == Some(events),
        commands::step_begun(events, "charge-card"@, starts),
        events.len() > starts + 1,
        events[starts as int + 1] is StepFailed,
    ensures
        result is Err,
        after.effects == before.effects,
        after.journals == before.journals,
        after.position == before.position + 1,
{
    let (middle, charged) = choose|middle: RunState, charged: Result<Seq<u8>, StepErrorView>|
     #[trigger]
        charges(workflow.services, before, middle, charged) && match charged {
            Err(error) => after == middle && reports(result, error),
            Ok(confirmation) => exists|created: Result<Seq<u8>, StepErrorView>| #[trigger]
                creates(workflow.services, middle, after, created) && match created {
                    Err(error) => reports(result, error),
                    Ok(_) => result matches Ok(output) && output@ == confirmation,
                },
        };
    commands::steps_are_replayed(before, "charge-card"@, middle, charged, events, starts);
}

/// A signup whose charge is journaled as done gives what was journaled for
/// it, and does not charge the card again. It creates the account at the next
/// position.
pub proof fn a_done_charge_is_not_repeated<S: JournalStore, V: SignupServices>(
    workflow: SignupWorkflow<V>,
    input: Seq<u8>,
    before: RunState,
    after: RunState,
    result: Result<EventPayload, String>,
    events: Seq<EventView>,
    starts: nat,
)
    requires
        Workflow::<S>::outcome(&workflow, input, before, after, result),
        before.crash is None,
        !before.armed,
        !before.fallible,
        before.replay == Some(events),
        commands::step_begun(events, "charge-card"@, starts),
        events.len() == starts + 2,
        events[starts as int + 1] is StepCompleted,
    ensures
        ({
            let seq = before.position + 1;
            let account = "{\"account_id\":\"acct_2026_0719\"}".spec_bytes();
            &&& result matches Ok(output) && output@ == events[starts as int + 1]->result
            &&& after.journal() == before.journal() + seq![
                EventView::StepScheduled { seq, name: "create-account"@ },
                EventView::StepStarted { seq, attempt: 1 },
                EventView::StepCompleted { seq, result: account },
            ]
            &&& after.effects == before.effects.push(
                Effect { seq, name: "create-account"@, answer: Ok(account) },
            )
        }),
{
    let (middle, charged) = choose|middle: RunState, charged: Result<Seq<u8>, StepErrorView>|
     #[trigger]
        charges(workflow.services, before, middle, charged) && match charged {
            Err(error) => after == middle && reports(result, error),
            Ok(confirmation) => exists|created: Result<Seq<u8>, StepErrorView>| #[trigger]
                creates(workflow.services, middle, after, created) && match created {
                    Err(error) => reports(result, error),
                    Ok(_) => result matches Ok(output) && output@ == confirmation,
                },
        };
    commands::steps_are_replayed(before, "charge-card"@, middle, charged, events, starts);
    let confirmation = charged->Ok_0;
    let created = choose|created: Result<Seq<u8>, StepErrorView>| #[trigger]
        creates(workflow.services, middle, after, created) && match created {
            Err(error) => reports(result, error),
            Ok(_) => result matches Ok(output) && output@ == confirmation,
        };
    commands::live_steps_are_journaled(middle, "create-account"@, after, created, None);
    assert(after.effects.len() != middle.effects.len());
    let seq = before.position + 1;
    let account = account_confirmation();
    assert(after.journal() =~= before.journal() + seq![
        EventView::StepScheduled { seq, name: "create-account"@ },
        EventView::StepStarted { seq, attempt: 1 },
        EventView::StepCompleted { seq, result: account },
    ]);
}

} // verus!
