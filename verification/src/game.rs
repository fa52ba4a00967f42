//! Session engine: owns the session data (world, characters, turn history,
//! summaries), builds outbound requests, applies committed turns, and
//! decides when a new summary is due.
//!
//! Driving a live response stream is split between this library and its
//! caller: the caller performs the network work and feeds plain values into
//! the turn-stream machine and the commit operations here.
use crate::game::protocol::TurnOutput;
use crate::llm::{InputMessage, Request, Role};
use crate::strutil::{dec_spec, str_eq_str, usize_to_string};
use crate::SUMMARY_INTERVAL;
use vstd::string::StringExecFns;
use vstd::prelude::*;

pub mod protocol;
pub mod stream_finder;
pub mod turn_stream;

verus! {

broadcast use vstd::string::group_string_axioms;

/// The immutable description of the world a session plays in: a name, the
/// world narrative, one description per playable character, and the global
/// initial action.
#[derive(Debug, Clone)]
pub struct WorldDescription {
    pub name: String,
    pub main_description: String,
    pub pc_descriptions: Vec<(String, String)>,
    pub init_action: String,
}

impl WorldDescription {
    /// Whether a character of this name is described in the world.
    pub open spec fn has_character(&self, name: Seq<char>) -> bool {
        exists|k: int| 0 <= k < self.pc_descriptions@.len() && self.pc_descriptions@[k].0@ == name
    }
}

/// The player's contribution to one turn: an action for the character, an
/// instruction to the game master, or both.
#[derive(Debug, Clone)]
pub enum TurnInput {
    PlayerAction(String),
    GmInstruction(String),
    Both { player_action: String, gm_instruction: String },
}

/// The text a turn input contributes to a user message.
pub open spec fn user_input_text(i: TurnInput) -> Seq<char> {
    match i {
        TurnInput::PlayerAction(a) => "\n# player action\n"@ + a@,
        TurnInput::GmInstruction(g) => "\n# gm command\n"@ + g@,
        TurnInput::Both { player_action, gm_instruction } => "\n# player action\n"@
            + player_action@ + "\n# gm command\n"@ + gm_instruction@,
    }
}

impl TurnInput {
    /// Appends this input's sections to a user message under construction.
    pub fn write_to_user_msg_string(&self, user_message: &mut String)
        ensures
            final(user_message)@ == old(user_message)@ + user_input_text(*self),
    {
        match self {
            TurnInput::PlayerAction(a) => {
                user_message.append("\n# player action\n");
                user_message.append(a.as_str());
            },
            TurnInput::GmInstruction(g) => {
                user_message.append("\n# gm command\n");
                user_message.append(g.as_str());
            },
            TurnInput::Both { player_action, gm_instruction } => {
                user_message.append("\n# player action\n");
                user_message.append(player_action.as_str());
                user_message.append("\n# gm command\n");
                user_message.append(gm_instruction.as_str());
            },
        }
        proof {
            assert(final(user_message)@ =~= old(user_message)@ + user_input_text(*self));
        }
    }
}

/// A condensed narrative of everything up to and including a turn.
#[derive(Debug, Clone)]
pub struct Summary {
    pub content: String,
    /// Index of the last committed turn this summary covers.
    pub bday: usize,
}

/// One committed turn: the input, the structured output, and the images
/// generated for it.
#[derive(Debug, Clone)]
pub struct TurnData {
    /// Index of the most recent summary at the time of input, if any.
    pub summary_before_input: Option<usize>,
    pub input: TurnInput,
    pub output: TurnOutput,
    /// Archive ids of the images of this turn; never empty.
    pub image_ids: Vec<usize>,
    /// Captions, one per image id.
    pub image_captions: Vec<String>,
}

impl TurnData {
    pub open spec fn wf(&self) -> bool {
        &&& self.output.proposed_next_actions@.len() == crate::N_PROPOSED_OPTIONS
        &&& self.image_ids@.len() >= 1
        &&& self.image_captions@.len() == self.image_ids@.len()
    }
}

/// The root aggregate of a session: the world, the active player character,
/// the summaries and the committed turns.
#[derive(Debug, Clone)]
pub struct GameData {
    pub world_description: WorldDescription,
    pub pc: String,
    pub summaries: Vec<Summary>,
    pub turn_data: Vec<TurnData>,
}

impl GameData {
    /// Every committed turn is well formed, and the summaries are ordered
    /// strictly ascending by the turn they cover, each covering a committed
    /// turn.
    pub open spec fn wf(&self) -> bool {
        &&& forall|k: int| 0 <= k < self.turn_data@.len() ==> (#[trigger] self.turn_data@[k]).wf()
        &&& forall|i: int, j: int|
            0 <= i < j < self.summaries@.len() ==> (#[trigger] self.summaries@[i]).bday < (
            #[trigger] self.summaries@[j]).bday
        &&& forall|i: int|
            0 <= i < self.summaries@.len() ==> (#[trigger] self.summaries@[i]).bday
                < self.turn_data@.len()
    }

    /// Decides the well-formedness of loaded session data at run time.
    #[verifier::loop_isolation(false)]
    pub fn is_well_formed(&self) -> (r: bool)
        ensures
            r == self.wf(),
    {
        let mut k: usize = 0;
        while k < self.turn_data.len()
            invariant
                k <= self.turn_data@.len(),
                forall|m: int| 0 <= m < k ==> (#[trigger] self.turn_data@[m]).wf(),
            decreases self.turn_data@.len() - k,
        {
            let td = &self.turn_data[k];
            if !(td.output.proposed_next_actions.len() == crate::N_PROPOSED_OPTIONS
                && td.image_ids.len() >= 1 && td.image_captions.len() == td.image_ids.len()) {
                return false;
            }
            k += 1;
        }
        let mut i: usize = 0;
        while i < self.summaries.len()
            invariant
                i <= self.summaries@.len(),
                forall|m: int|
                    0 <= m < i ==> (#[trigger] self.summaries@[m]).bday < self.turn_data@.len(),
                forall|m: int|
                    0 < m < i ==> (#[trigger] self.summaries@[m - 1]).bday
                        < self.summaries@[m].bday,
            decreases self.summaries@.len() - i,
        {
            if self.summaries[i].bday >= self.turn_data.len() {
                return false;
            }
            if i > 0 && self.summaries[i - 1].bday >= self.summaries[i].bday {
                return false;
            }
            i += 1;
        }
        proof {
            assert forall|a: int, b: int| 0 <= a < b < self.summaries@.len() implies (
            #[trigger] self.summaries@[a]).bday < (#[trigger] self.summaries@[b]).bday by {
                lemma_adjacent_sorted(self.summaries@, a, b);
            }
        }
        true
    }
}

/// Whether a new summary is due for this session state: the committed turns
/// not yet covered by a summary have reached the summary interval.
pub open spec fn summary_due(d: GameData) -> bool {
    if d.summaries@.len() == 0 {
        d.turn_data@.len() >= SUMMARY_INTERVAL
    } else {
        d.turn_data@.len() - d.summaries@.last().bday >= SUMMARY_INTERVAL
    }
}

/// Errors of session-engine operations.
#[derive(Debug, Clone, PartialEq, Eq, Structural)]
pub enum GameError {
    /// The chosen player character is not described in the world.
    InvalidCharacterName,
}

/// A running session: the engine that owns the session data.
#[derive(Debug, Clone)]
pub struct Game {
    pub data: GameData,
}

/// What the engine answers when asked to start or resume: the initial input
/// to send for a fresh session, or the last committed turn of a resumed one.
pub enum StartResultOrData<'a> {
    StartResult(TurnInput),
    Data(&'a TurnData),
}

impl Game {
    pub open spec fn wf(&self) -> bool {
        self.data.wf()
    }

    /// Starts a new session in the given world with the given player
    /// character; rejects a character the world does not describe.
    #[verifier::loop_isolation(false)]
    pub fn try_new(world_description: WorldDescription, player_character: String) -> (r: Result<
        Game,
        GameError,
    >)
        ensures
            world_description.has_character(player_character@) ==> (r matches Ok(g)
                && g.data.world_description == world_description && g.data.pc == player_character
                && g.data.summaries@.len() == 0 && g.data.turn_data@.len() == 0 && g.wf()),
            !world_description.has_character(player_character@) ==> r == Result::<
                Game,
                GameError,
            >::Err(GameError::InvalidCharacterName),
    {
        let mut k: usize = 0;
        let n = world_description.pc_descriptions.len();
        let mut found = false;
        while k < n && !found
            invariant
                k <= n,
                n == world_description.pc_descriptions@.len(),
                found ==> world_description.has_character(player_character@),
                !found ==> forall|m: int|
                    0 <= m < k ==> (#[trigger] world_description.pc_descriptions@[m]).0@
                        != player_character@,
            decreases n - k,
        {
            if str_eq_str(world_description.pc_descriptions[k].0.as_str(), player_character.as_str())
            {
                found = true;
            }
            k += 1;
        }
        if found {
            Result::Ok(
                Game {
                    data: GameData {
                        world_description,
                        pc: player_character,
                        summaries: Vec::new(),
                        turn_data: Vec::new(),
                    },
                },
            )
        } else {
            Result::Err(GameError::InvalidCharacterName)
        }
    }

    /// Resumes a session from loaded data.
    pub fn load(data: GameData) -> (g: Game)
        requires
            data.wf(),
        ensures
            g.data == data,
            g.wf(),
    {
        Game { data }
    }

    pub fn get_data(&self) -> (r: &GameData)
        ensures
            *r == self.data,
    {
        &self.data
    }

    pub fn is_empty(&self) -> (r: bool)
        ensures
            r == (self.data.turn_data@.len() == 0),
    {
        self.data.turn_data.len() == 0
    }

    /// The current turn number: the number of committed turns, which is the
    /// number of the turn not yet started.
    pub fn current_turn(&self) -> (r: usize)
        ensures
            r == self.data.turn_data@.len(),
    {
        self.data.turn_data.len()
    }

    /// For a fresh session, the initial input to send: the world's global
    /// initial action as a player action.  For a resumed session, the last
    /// committed turn.
    pub fn start_or_get_last_output<'a>(&'a self) -> (r: StartResultOrData<'a>)
        ensures
            self.data.turn_data@.len() == 0 ==> (r matches StartResultOrData::StartResult(i)
                && i matches TurnInput::PlayerAction(a) && a@
                == self.data.world_description.init_action@),
            self.data.turn_data@.len() > 0 ==> (r matches StartResultOrData::Data(t) && *t
                == self.data.turn_data@.last()),
    {
        if self.data.turn_data.len() == 0 {
            StartResultOrData::StartResult(
                TurnInput::PlayerAction(self.data.world_description.init_action.clone()),
            )
        } else {
            StartResultOrData::Data(&self.data.turn_data[self.data.turn_data.len() - 1])
        }
    }

    /// Commits one finished turn: appends it to the history, recording which
    /// summary was current at input time, and reports whether a new summary
    /// is now due.
    pub fn update(
        &mut self,
        input: TurnInput,
        output: TurnOutput,
        image_ids: Vec<usize>,
        image_captions: Vec<String>,
    ) -> (needs_summary: bool)
        requires
            old(self).wf(),
            output.proposed_next_actions@.len() == crate::N_PROPOSED_OPTIONS,
            image_ids@.len() >= 1,
            image_captions@.len() == image_ids@.len(),
        ensures
            final(self).wf(),
            final(self).data.world_description == old(self).data.world_description,
            final(self).data.pc == old(self).data.pc,
            final(self).data.summaries == old(self).data.summaries,
            final(self).data.turn_data@ == old(self).data.turn_data@.push(
                TurnData {
                    summary_before_input: if old(self).data.summaries@.len() > 0 {
                        Some((old(self).data.summaries@.len() - 1) as usize)
                    } else {
                        None
                    },
                    input,
                    output,
                    image_ids,
                    image_captions,
                },
            ),
            needs_summary == summary_due(final(self).data),
    {
        let summary_before_input: Option<usize> = if self.data.summaries.len() > 0 {
            Some(self.data.summaries.len() - 1)
        } else {
            None
        };
        let turn = TurnData { summary_before_input, input, output, image_ids, image_captions };
        self.data.turn_data.push(turn);
        let n = self.data.turn_data.len();
        if self.data.summaries.len() == 0 {
            n >= SUMMARY_INTERVAL
        } else {
            let bday = self.data.summaries[self.data.summaries.len() - 1].bday;
            n - bday >= SUMMARY_INTERVAL
        }
    }

    /// Records the returned summary text as a new summary covering every
    /// committed turn.
    pub fn apply_summary(&mut self, content: String)
        requires
            old(self).wf(),
            old(self).data.turn_data@.len() > 0,
            summary_due(old(self).data),
        ensures
            final(self).wf(),
            final(self).data.world_description == old(self).data.world_description,
            final(self).data.pc == old(self).data.pc,
            final(self).data.turn_data == old(self).data.turn_data,
            final(self).data.summaries@ == old(self).data.summaries@.push(
                Summary { content, bday: (old(self).data.turn_data@.len() - 1) as usize },
            ),
    {
        let bday = self.data.turn_data.len() - 1;
        self.data.summaries.push(Summary { content, bday });
        proof {
            assert(final(self).wf()) by {
                let s = final(self).data.summaries@;
                assert(forall|i: int, j: int| 0 <= i < j < s.len() ==> (#[trigger] s[i]).bday < (
                #[trigger] s[j]).bday) by {
                    assert(forall|i: int|
                        0 <= i < s.len() - 1 ==> (#[trigger] s[i]).bday == old(
                            self,
                        ).data.summaries@[i].bday);
                }
            }
        }
    }


    /// Overwrites the narrative text of a completed turn in place; nothing
    /// else of the history changes.
    pub fn update_output(&mut self, completed_turn: usize, val: String)
        requires
            old(self).wf(),
            completed_turn < old(self).data.turn_data@.len(),
        ensures
            final(self).wf(),
            final(self).data.world_description == old(self).data.world_description,
            final(self).data.pc == old(self).data.pc,
            final(self).data.summaries == old(self).data.summaries,
            final(self).data.turn_data@ == old(self).data.turn_data@.update(
                completed_turn as int,
                (TurnData {
                    output: TurnOutput {
                        text: val,
                        ..old(self).data.turn_data@[completed_turn as int].output
                    },
                    ..old(self).data.turn_data@[completed_turn as int]
                }),
            ),
    {
        let mut td = self.data.turn_data.remove(completed_turn);
        td.output.text = val;
        self.data.turn_data.insert(completed_turn, td);
        proof {
            assert(final(self).data.turn_data@ =~= old(self).data.turn_data@.update(
                completed_turn as int,
                final(self).data.turn_data@[completed_turn as int],
            ));
        }
    }

    /// Overwrites the secret info of a completed turn in place; nothing
    /// else of the history changes.
    pub fn update_hidden_info(&mut self, completed_turn: usize, val: String)
        requires
            old(self).wf(),
            completed_turn < old(self).data.turn_data@.len(),
        ensures
            final(self).wf(),
            final(self).data.world_description == old(self).data.world_description,
            final(self).data.pc == old(self).data.pc,
            final(self).data.summaries == old(self).data.summaries,
            final(self).data.turn_data@ == old(self).data.turn_data@.update(
                completed_turn as int,
                (TurnData {
                    output: TurnOutput {
                        secret_info: val,
                        ..old(self).data.turn_data@[completed_turn as int].output
                    },
                    ..old(self).data.turn_data@[completed_turn as int]
                }),
            ),
    {
        let mut td = self.data.turn_data.remove(completed_turn);
        td.output.secret_info = val;
        self.data.turn_data.insert(completed_turn, td);
        proof {
            assert(final(self).data.turn_data@ =~= old(self).data.turn_data@.update(
                completed_turn as int,
                final(self).data.turn_data@[completed_turn as int],
            ));
        }
    }

    /// Rewinds the session to a completed turn: every later turn is removed,
    /// and with them every summary that covers a removed turn.
    #[verifier::loop_isolation(false)]
    pub fn clip_after_turn(&mut self, completed_turn: usize)
        requires
            old(self).wf(),
            completed_turn < old(self).data.turn_data@.len(),
        ensures
            final(self).wf(),
            final(self).data.world_description == old(self).data.world_description,
            final(self).data.pc == old(self).data.pc,
            final(self).data.turn_data@ == old(self).data.turn_data@.take(completed_turn + 1),
            final(self).data.summaries@ == old(self).data.summaries@.take(
                final(self).data.summaries@.len() as int,
            ),
            forall|i: int| 0 <= i < final(self).data.summaries@.len() ==> (#[trigger] final(self).data.summaries@[i]).bday <= completed_turn,
            final(self).data.summaries@.len() < old(self).data.summaries@.len() ==> old(self).data.summaries@[final(self).data.summaries@.len() as int].bday > completed_turn,
    {
        let n = self.data.turn_data.len();
        self.data.turn_data.truncate(completed_turn + 1);
        while self.data.summaries.len() > 0 && self.data.summaries[self.data.summaries.len()
            - 1].bday > completed_turn
            invariant
                self.data.turn_data@ == old(self).data.turn_data@.take(completed_turn + 1),
                self.data.world_description == old(self).data.world_description,
                self.data.pc == old(self).data.pc,
                self.data.summaries@.len() <= old(self).data.summaries@.len(),
                self.data.summaries@ == old(self).data.summaries@.take(
                    self.data.summaries@.len() as int,
                ),
                self.data.summaries@.len() < old(self).data.summaries@.len() ==> old(self).data.summaries@[self.data.summaries@.len() as int].bday > completed_turn,
            decreases self.data.summaries@.len(),
        {
            let ghost m = self.data.summaries@.len();
            self.data.summaries.pop();
            proof {
                assert(self.data.summaries@ =~= old(self).data.summaries@.take(m - 1));
            }
        }
        proof {
            let s = self.data.summaries@;
            let os = old(self).data.summaries@;
            assert(forall|i: int| 0 <= i < s.len() ==> s[i] == os[i]);
            assert forall|i: int| 0 <= i < s.len() implies (#[trigger] s[i]).bday
                <= completed_turn by {
                if i < s.len() - 1 {
                    assert(os[i].bday < os[s.len() - 1].bday);
                }
            }
            assert(final(self).wf());
        }
    }
}


/// Number of committed turns replayed into a request: the most recent ones,
/// up to the history window size.
pub open spec fn hist_len(d: GameData) -> int {
    if d.turn_data@.len() > crate::HIST_SIZE {
        crate::HIST_SIZE as int
    } else {
        d.turn_data@.len() as int
    }
}

/// Index of the first replayed turn.
pub open spec fn hist_start(d: GameData) -> int {
    d.turn_data@.len() - hist_len(d)
}

/// The secret info of the turn before turn `i`, as appended to a user
/// message; empty for the first turn.
pub open spec fn secret_suffix(d: GameData, i: int) -> Seq<char> {
    if i > 0 {
        "\n# last secret info\n"@ + d.turn_data@[i - 1].output.secret_info@
    } else {
        Seq::<char>::empty()
    }
}

/// The user message replaying committed turn `i`.
pub open spec fn hist_user_text(d: GameData, i: int) -> Seq<char> {
    "turn "@ + dec_spec(i as nat) + user_input_text(d.turn_data@[i].input) + secret_suffix(d, i)
}

/// The final user message carrying the new input, with the secret info of
/// the last committed turn.
pub open spec fn latest_user_text(d: GameData, input: TurnInput) -> Seq<char> {
    user_input_text(input) + (if d.turn_data@.len() > 0 {
        "\n# last secret info\n"@ + d.turn_data@.last().output.secret_info@
    } else {
        Seq::<char>::empty()
    })
}

/// The system prompt of a narrative request: the fixed template with the
/// player character, the world narrative and the latest summary (the empty
/// string and turn zero when none exists) inserted.
pub open spec fn system_prompt_spec(d: GameData) -> Seq<char> {
    let player = d.pc@;
    let world = d.world_description.main_description@;
    let summary = if d.summaries@.len() > 0 {
        d.summaries@.last().content@
    } else {
        Seq::<char>::empty()
    };
    let summary_turn = if d.summaries@.len() > 0 {
        dec_spec(d.summaries@.last().bday as nat)
    } else {
        dec_spec(0)
    };
    "You are a Story-teller-game. Below, I will provide a world-description.\nIn that world, I control "@ + player + ". When I input anything, it's a command\nfor "@ + player + " to execute in the world. Then it's your turn to decide and tell\nme how the world react to my input, and what happens. One pair of messages,\none from me + one from you is called a turn. For each turn, you will also\ngenerate a description that can be passed to Flux2 to generate an image.\n\nMy input will be structured like this: The turn number, followed by\nthree sections, all optional, like this:\n\n--- START EXAMPLE ---\n turn *N*\n # player action\n *whatever I want "@ + player + " to do or say.*\n # gm command\n *whatever I want you to respect while generating the next message.*\n # last secret info\n * The secret Info you generated for yourself last turn*\n--- END EXAMPLE ---\n\nThe player action means: what ever I write here is what "@ + player + " does or says.\nWhen "@ + player
        + " is in a\nstate that doesn't allow my inputted action, or makes it\nimplausible, modify it by the least amount required to be possible,\nor interprete it in a way that makes it possible. These actions can fail.\n\nThe gm command means that I want control over the story, and you should\nrespect it to the best of your abilities. \n\nIf I provide neither of those, it just means you should generate more output for the\nprevious input.\n\nI will have you generate secret infos for each output, that I'll pass back\nto the input, which is the third section. \n\nThe output should have the following structure:\n--- START EXAMPLE ---\n*The image description* will be passed to Flux2 to generate an image.\nUnless the most important part of the current turn is a special place, scenery or\nobject, the image should show a character that is currently important.\n<<<EOID>>>\n*A short image caption* will be displayed below the image 1-5 words\n<<<EOIC>>>\n*The output*: text that is displayed to me, this should be between 300 and 2000 words\n<<<EOO>>>\n*Secret info*:. Stuff that is related to output, but hidden from me,\nit's a note for yourself. It should be between 100 and 1000 words.\n<<<EOS>>>\nProposed Action 1\n<<<EOA>>>\nProposed Action 2\n<<<EOA>>>\nProposed Action 3\n--- END EXAMPLE ---\n\nThe above example is explanatory, you are supposed to replace all text within it,\nexcept for <<<EOO>>>, <<<EOS>>> and <<<EOA>>>, which are parsing delimiters and\nneed to appear exactly like this on their own lines. So your generated output\nshould NOT start with `The output*:`, additionally, it should not have a heading\nor the turn number.\n\nThe Proposed Actions should be one sentence each, describing 3 different\nplausable next actions for "@ + player + " to take.\n\nHere is the description of the world the story plays in, and some some\ninstructions about the style:\n--- START DESCRIPTION ---\n"@ + world + " \n--- END DESCRIPTION ---\n\nHere is a summary of everthing that has happened up till turn "@ + summary_turn + ":\n\n--- START SUMMARY ---\n"@ + summary + " \n--- END SUMMARY ---\n"@
}

/// The system prompt of a summarization request: the summarizer template
/// with the prior summary inserted, or a note that none exists.
pub open spec fn summarizer_prompt_spec(d: GameData) -> Seq<char> {
    if d.summaries@.len() > 0 {
        "You are the summarizer of a turn-based story game. You will be given the turns that have happened since the last summary was written; the earlier summary, if one exists, is included below. Write one factual summary of everything that has happened up to and including the last turn. Do not roleplay, do not invent events, do not address the player. Keep every name and every fact that later turns may depend on. Use at most 2000 words.\n\n--- PRIOR SUMMARY (through turn "@ + dec_spec(d.summaries@.last().bday as nat) + ") ---\n"@
            + d.summaries@.last().content@ + "\n--- END PRIOR SUMMARY ---\n"@
    } else {
        "There is no prior summary; the story starts with the first turn below.\n"@
    }
}

/// Index of the first committed turn no summary covers.
pub open spec fn unsummarized_start(d: GameData) -> int {
    if d.summaries@.len() > 0 {
        d.summaries@.last().bday + 1
    } else {
        0
    }
}

impl GameData {
    fn build_system_prompt(&self) -> (s: String)
        ensures
            s@ == system_prompt_spec(*self),
    {
        let mut s = String::new();
        s.append("You are a Story-teller-game. Below, I will provide a world-description.\nIn that world, I control ");
        s.append(self.pc.as_str());
        s.append(". When I input anything, it's a command\nfor ");
        s.append(self.pc.as_str());
        s.append(" to execute in the world. Then it's your turn to decide and tell\nme how the world react to my input, and what happens. One pair of messages,\none from me + one from you is called a turn. For each turn, you will also\ngenerate a description that can be passed to Flux2 to generate an image.\n\nMy input will be structured like this: The turn number, followed by\nthree sections, all optional, like this:\n\n--- START EXAMPLE ---\n turn *N*\n # player action\n *whatever I want ");
        s.append(self.pc.as_str());
        s.append(" to do or say.*\n # gm command\n *whatever I want you to respect while generating the next message.*\n # last secret info\n * The secret Info you generated for yourself last turn*\n--- END EXAMPLE ---\n\nThe player action means: what ever I write here is what ");
        s.append(self.pc.as_str());
        s.append(" does or says.\nWhen ");
        s.append(self.pc.as_str());
        s.append(" is in a\nstate that doesn't allow my inputted action, or makes it\nimplausible, modify it by the least amount required to be possible,\nor interprete it in a way that makes it possible. These actions can fail.\n\nThe gm command means that I want control over the story, and you should\nrespect it to the best of your abilities. \n\nIf I provide neither of those, it just means you should generate more output for the\nprevious input.\n\nI will have you generate secret infos for each output, that I'll pass back\nto the input, which is the third section. \n\nThe output should have the following structure:\n--- START EXAMPLE ---\n*The image description* will be passed to Flux2 to generate an image.\nUnless the most important part of the current turn is a special place, scenery or\nobject, the image should show a character that is currently important.\n<<<EOID>>>\n*A short image caption* will be displayed below the image 1-5 words\n<<<EOIC>>>\n*The output*: text that is displayed to me, this should be between 300 and 2000 words\n<<<EOO>>>\n*Secret info*:. Stuff that is related to output, but hidden from me,\nit's a note for yourself. It should be between 100 and 1000 words.\n<<<EOS>>>\nProposed Action 1\n<<<EOA>>>\nProposed Action 2\n<<<EOA>>>\nProposed Action 3\n--- END EXAMPLE ---\n\nThe above example is explanatory, you are supposed to replace all text within it,\nexcept for <<<EOO>>>, <<<EOS>>> and <<<EOA>>>, which are parsing delimiters and\nneed to appear exactly like this on their own lines. So your generated output\nshould NOT start with `The output*:`, additionally, it should not have a heading\nor the turn number.\n\nThe Proposed Actions should be one sentence each, describing 3 different\nplausable next actions for ");
        s.append(self.pc.as_str());
        s.append(" to take.\n\nHere is the description of the world the story plays in, and some some\ninstructions about the style:\n--- START DESCRIPTION ---\n");
        s.append(self.world_description.main_description.as_str());
        s.append(" \n--- END DESCRIPTION ---\n\nHere is a summary of everthing that has happened up till turn ");
        if self.summaries.len() > 0 {
            let t = usize_to_string(self.summaries[self.summaries.len() - 1].bday);
            s.append(t.as_str());
        } else {
            let t = usize_to_string(0);
            s.append(t.as_str());
        }
        s.append(":\n\n--- START SUMMARY ---\n");
        if self.summaries.len() > 0 {
            s.append(self.summaries[self.summaries.len() - 1].content.as_str());
        }
        s.append(" \n--- END SUMMARY ---\n");
        proof {
            assert(s@ =~= system_prompt_spec(*self));
        }
        s
    }

    /// The user message replaying committed turn `i`.
    fn build_hist_user(&self, i: usize) -> (s: String)
        requires
            i < self.turn_data@.len(),
        ensures
            s@ == hist_user_text(*self, i as int),
    {
        let mut s = String::new();
        s.append("turn ");
        let num = usize_to_string(i);
        s.append(num.as_str());
        self.turn_data[i].input.write_to_user_msg_string(&mut s);
        if i > 0 {
            s.append("\n# last secret info\n");
            s.append(self.turn_data[i - 1].output.secret_info.as_str());
        }
        proof {
            assert(s@ =~= hist_user_text(*self, i as int));
        }
        s
    }

    /// Builds the outbound request for a new input: the system prompt, the
    /// replay of the most recent committed turns as alternating user and
    /// assistant messages, and the new input as the final user message.
    #[verifier::loop_isolation(false)]
    pub fn construct_request(&self, input: &TurnInput) -> (r: Request)
        requires
            self.wf(),
        ensures
            r.max_tokens == 3000,
            r.system matches Some(s) && s@ == system_prompt_spec(*self),
            r.messages@.len() == 2 * hist_len(*self) + 1,
            forall|k: int|
                0 <= k < hist_len(*self) ==> (#[trigger] r.messages@[2 * k]).role == Role::User
                    && r.messages@[2 * k].content@ == hist_user_text(*self, hist_start(*self) + k)
                    && r.messages@[2 * k + 1].role == Role::Assistant && r.messages@[2 * k
                    + 1].content@ == protocol::encode_spec(
                    self.turn_data@[hist_start(*self) + k].output,
                ),
            r.messages@.last().role == Role::User,
            r.messages@.last().content@ == latest_user_text(*self, *input),
    {
        let system_message = self.build_system_prompt();
        let n = self.turn_data.len();
        let start: usize = if n > crate::HIST_SIZE {
            n - crate::HIST_SIZE
        } else {
            0
        };
        let mut messages: Vec<InputMessage> = Vec::new();
        let mut i: usize = start;
        while i < n
            invariant
                start <= i <= n,
                messages@.len() == 2 * (i - start),
                forall|k: int|
                    0 <= k < i - start ==> (#[trigger] messages@[2 * k]).role == Role::User
                        && messages@[2 * k].content@ == hist_user_text(*self, start + k)
                        && messages@[2 * k + 1].role == Role::Assistant && messages@[2 * k
                        + 1].content@ == protocol::encode_spec(self.turn_data@[start + k].output),
            decreases n - i,
        {
            let user_message = self.build_hist_user(i);
            messages.push(InputMessage::user(user_message));
            messages.push(InputMessage::assistant(self.turn_data[i].output.to_llm_format()));
            i += 1;
        }
        let mut latest_message = String::new();
        input.write_to_user_msg_string(&mut latest_message);
        if n > 0 {
            latest_message.append("\n# last secret info\n");
            latest_message.append(self.turn_data[n - 1].output.secret_info.as_str());
        }
        proof {
            assert(latest_message@ =~= latest_user_text(*self, *input));
        }
        messages.push(InputMessage::user(latest_message));
        Request { messages, max_tokens: 3000, system: Some(system_message) }
    }
}

impl Game {
    /// Builds the summarization request: the summarizer system prompt with
    /// the prior summary text, the replay of exactly the turns no summary
    /// covers, and a closing user instruction.
    #[verifier::loop_isolation(false)]
    pub fn mk_summary_request(&self) -> (r: Request)
        requires
            self.wf(),
        ensures
            r.max_tokens == 3000,
            r.system matches Some(s) && s@ == summarizer_prompt_spec(self.data),
            ({
                let w = self.data.turn_data@.len() - unsummarized_start(self.data);
                &&& r.messages@.len() == 2 * w + 1
                &&& forall|k: int|
                    0 <= k < w ==> (#[trigger] r.messages@[2 * k]).role == Role::User
                        && r.messages@[2 * k].content@ == hist_user_text(
                        self.data,
                        unsummarized_start(self.data) + k,
                    ) && r.messages@[2 * k + 1].role == Role::Assistant && r.messages@[2 * k
                        + 1].content@ == protocol::encode_spec(
                        self.data.turn_data@[unsummarized_start(self.data) + k].output,
                    )
                &&& r.messages@.last().role == Role::User
                &&& r.messages@.last().content@ == "Write the updated summary now."@
            }),
    {
        let mut s = String::new();
        if self.data.summaries.len() > 0 {
            s.append("You are the summarizer of a turn-based story game. You will be given the turns that have happened since the last summary was written; the earlier summary, if one exists, is included below. Write one factual summary of everything that has happened up to and including the last turn. Do not roleplay, do not invent events, do not address the player. Keep every name and every fact that later turns may depend on. Use at most 2000 words.\n\n--- PRIOR SUMMARY (through turn ");
            let t = usize_to_string(self.data.summaries[self.data.summaries.len() - 1].bday);
            s.append(t.as_str());
            s.append(") ---\n");
            s.append(self.data.summaries[self.data.summaries.len() - 1].content.as_str());
            s.append("\n--- END PRIOR SUMMARY ---\n");
        } else {
            s.append("There is no prior summary; the story starts with the first turn below.\n");
        }
        proof {
            assert(s@ =~= summarizer_prompt_spec(self.data));
        }
        let n = self.data.turn_data.len();
        let start: usize = if self.data.summaries.len() > 0 {
            self.data.summaries[self.data.summaries.len() - 1].bday + 1
        } else {
            0
        };
        let mut messages: Vec<InputMessage> = Vec::new();
        let mut i: usize = start;
        while i < n
            invariant
                start <= i <= n,
                messages@.len() == 2 * (i - start),
                forall|k: int|
                    0 <= k < i - start ==> (#[trigger] messages@[2 * k]).role == Role::User
                        && messages@[2 * k].content@ == hist_user_text(self.data, start + k)
                        && messages@[2 * k + 1].role == Role::Assistant && messages@[2 * k
                        + 1].content@ == protocol::encode_spec(
                        self.data.turn_data@[start + k].output,
                    ),
            decreases n - i,
        {
            let user_message = self.data.build_hist_user(i);
            messages.push(InputMessage::user(user_message));
            messages.push(InputMessage::assistant(self.data.turn_data[i].output.to_llm_format()));
            i += 1;
        }
        messages.push(InputMessage::user(String::from_str("Write the updated summary now.")));
        Request { messages, max_tokens: 3000, system: Some(s) }
    }
}

/// In a sequence of summaries where each is younger than the next, any
/// earlier one is younger than any later one.
proof fn lemma_adjacent_sorted(s: Seq<Summary>, a: int, b: int)
    requires
        forall|m: int| 0 < m < s.len() ==> (#[trigger] s[m - 1]).bday < s[m].bday,
        0 <= a < b < s.len(),
    ensures
        s[a].bday < s[b].bday,
    decreases b - a,
{
    if a + 1 == b {
        assert(s[b - 1].bday < s[b].bday);
    } else {
        lemma_adjacent_sorted(s, a + 1, b);
        assert(s[a + 1 - 1].bday < s[a + 1].bday);
    }
}

} // verus!
