//! The live prompt session: an editable input buffer with a cursor counted
//! in characters, a bounded command history, the derived suggestion list
//! with a selected index, and the derived hint — all driven by discrete key
//! events.  The terminal loop around it polls for a key, hands it to
//! [`PromptSession::handle_key`], prints what that returns, and redraws
//! from the session's fields.

use vstd::prelude::*;

use crate::command::{execute_outcome_ok, suggest_result, CommandRegistry};
use crate::text::{
    chars_of, find_first_colon, has_colon, last_space_pos, lemma_colon_pos, lemma_last_space_pos,
    push_chars, rfind_space, string_from_chars, subvec, tokenize, tokens_of, trim_of,
    trimmed_eq_str,
};
use crate::theme::{names_default, ColorTheme};

verus! {

/// Configuration of a prompt session: the prompt text, the command
/// registry, a seed history with its cap, a theme, and how many
/// suggestions the panel shows.
pub struct PromptConfig {
    pub prompt: String,
    pub registry: CommandRegistry,
    pub history: Vec<String>,
    pub max_history: usize,
    pub theme: ColorTheme,
    pub max_suggestions: usize,
}

impl PromptConfig {
    /// A configuration with an empty history capped at fifty entries, the
    /// default theme, and a five-row suggestion panel.
    pub fn new(prompt: &str, registry: CommandRegistry) -> (r: Self)
        ensures
            r.prompt@ == prompt@,
            r.registry == registry,
            r.history@ == Seq::<String>::empty(),
            r.max_history == 50,
            r.max_suggestions == 5,
            names_default(r.theme.prompt_color, "cyan"@),
            names_default(r.theme.input_color, "white"@),
            names_default(r.theme.suggestion_color, "white"@),
            names_default(r.theme.selected_suggestion_color.fg, "yellow"@),
            names_default(r.theme.selected_suggestion_color.bg, "dark_gray"@),
            names_default(r.theme.hint_color, "gray"@),
    {
        PromptConfig {
            prompt: prompt.to_owned(),
            registry,
            history: Vec::new(),
            max_history: 50,
            theme: ColorTheme::default(),
            max_suggestions: 5,
        }
    }

    /// The same configuration, seeded with a history.
    pub fn with_history(self, history: Vec<String>) -> (r: Self)
        ensures
            r.history == history,
            r.prompt == self.prompt,
            r.registry == self.registry,
            r.max_history == self.max_history,
            r.theme == self.theme,
            r.max_suggestions == self.max_suggestions,
    {
        PromptConfig { history, ..self }
    }

    /// The same configuration, with the given history cap.
    pub fn with_max_history(self, max: usize) -> (r: Self)
        ensures
            r.max_history == max,
            r.prompt == self.prompt,
            r.registry == self.registry,
            r.history == self.history,
            r.theme == self.theme,
            r.max_suggestions == self.max_suggestions,
    {
        PromptConfig { max_history: max, ..self }
    }

    /// The same configuration, with the given theme.
    pub fn with_theme(self, theme: ColorTheme) -> (r: Self)
        ensures
            r.theme == theme,
            r.prompt == self.prompt,
            r.registry == self.registry,
            r.history == self.history,
            r.max_history == self.max_history,
            r.max_suggestions == self.max_suggestions,
    {
        PromptConfig { theme, ..self }
    }

    /// The same configuration, with the given suggestion panel height.
    pub fn with_max_suggestions(self, max: usize) -> (r: Self)
        ensures
            r.max_suggestions == max,
            r.prompt == self.prompt,
            r.registry == self.registry,
            r.history == self.history,
            r.max_history == self.max_history,
            r.theme == self.theme,
    {
        PromptConfig { max_suggestions: max, ..self }
    }
}

/// A key event the session reacts to.
#[derive(Clone, Copy, PartialEq, Eq, Structural, Debug)]
pub enum KeyInput {
    Char(char),
    Enter,
    Backspace,
    Left,
    Right,
    Up,
    Down,
    Tab,
}

/// The live editing state of one prompt session.
pub struct PromptSession {
    pub config: PromptConfig,
    pub input: Vec<char>,
    pub cursor_pos: usize,
    pub history_index: Option<usize>,
    pub suggestions: Vec<String>,
    pub selected_suggestion: Option<usize>,
    pub hint: String,
    pub running: bool,
}

/// The history after appending one entry: the oldest entry leaves when the
/// cap is exceeded.
pub open spec fn pushed_history(h: Seq<Seq<char>>, entry: Seq<char>, max: int) -> Seq<Seq<char>> {
    let h2 = h.push(entry);
    if h2.len() > max {
        h2.drop_first()
    } else {
        h2
    }
}

/// The buffer after tab completion: with several tokens whose last has no
/// `:`, the suggestion replaces only the text after the last space (the
/// space itself stays); otherwise it replaces the whole buffer.
pub open spec fn tab_buffer(buffer: Seq<char>, sugg: Seq<char>) -> Seq<char> {
    let toks = tokens_of(buffer);
    if toks.len() > 1 && !has_colon(toks.last()) {
        if last_space_pos(buffer) >= 0 {
            buffer.take(last_space_pos(buffer) + 1) + sugg
        } else {
            sugg
        }
    } else {
        sugg
    }
}

impl PromptSession {
    /// The suggestion list, hint and selection are exactly what the
    /// registry derives for the current buffer, with the first suggestion
    /// selected when there is one.
    pub open spec fn refreshed(self) -> bool {
        &&& self.suggestions.deep_view() == suggest_result(self.config.registry@, self.input@).0
        &&& self.hint@ == suggest_result(self.config.registry@, self.input@).1
        &&& self.selected_suggestion == (if suggest_result(
            self.config.registry@,
            self.input@,
        ).0.len() == 0 {
            Option::<usize>::None
        } else {
            Option::<usize>::Some(0usize)
        })
    }

    /// Well-formedness: the cursor stays inside the buffer, a selected
    /// suggestion index names a real suggestion on a visible row (row zero
    /// is always visible), and a history cursor names a real entry.
    pub open spec fn wf(self) -> bool {
        &&& self.cursor_pos <= self.input@.len()
        &&& (match self.selected_suggestion {
            Some(i) => i < self.suggestions@.len() && (i < self.config.max_suggestions || i == 0),
            None => true,
        })
        &&& (match self.history_index {
            Some(i) => i < self.config.history@.len(),
            None => true,
        })
    }

    /// A fresh session: empty buffer, no history browsing, no suggestions
    /// yet, running.
    pub fn new(config: PromptConfig) -> (r: Self)
        ensures
            r.config == config,
            r.input@ == Seq::<char>::empty(),
            r.cursor_pos == 0,
            r.history_index is None,
            r.suggestions@ == Seq::<String>::empty(),
            r.selected_suggestion is None,
            r.hint@ == Seq::<char>::empty(),
            r.running,
            r.wf(),
    {
        PromptSession {
            config,
            input: Vec::new(),
            cursor_pos: 0,
            history_index: None,
            suggestions: Vec::new(),
            selected_suggestion: None,
            hint: String::new(),
            running: true,
        }
    }

    /// Re-derives the suggestion list and hint from the current buffer and
    /// selects the first suggestion when there is one.
    pub fn update_suggestions(&mut self)
        ensures
            final(self).refreshed(),
            final(self).config == old(self).config,
            final(self).input == old(self).input,
            final(self).cursor_pos == old(self).cursor_pos,
            final(self).history_index == old(self).history_index,
            final(self).running == old(self).running,
    {
        let line = string_from_chars(&self.input);
        let pair = self.config.registry.get_suggestions(line.as_str());
        self.suggestions = pair.0;
        self.hint = pair.1;
        self.selected_suggestion = if self.suggestions.len() == 0 {
            None
        } else {
            Some(0)
        };
        proof {
            assert(self.suggestions.deep_view().len() == self.suggestions@.len());
        }
    }

    /// Reacts to one key event, per the session's state table, and returns
    /// the line to print, if the event produced one.
    pub fn handle_key(&mut self, key: KeyInput) -> (out: Option<String>)
        requires
            old(self).wf(),
        ensures
            final(self).wf(),
            final(self).config.prompt == old(self).config.prompt,
            final(self).config.registry == old(self).config.registry,
            final(self).config.max_history == old(self).config.max_history,
            final(self).config.max_suggestions == old(self).config.max_suggestions,
            final(self).config.theme == old(self).config.theme,
            match key {
                KeyInput::Char(c) => ({
                    &&& final(self).input@ == old(self).input@.insert(
                        old(self).cursor_pos as int,
                        c,
                    )
                    &&& final(self).cursor_pos == old(self).cursor_pos + 1
                    &&& final(self).history_index == old(self).history_index
                    &&& final(self).config.history == old(self).config.history
                    &&& final(self).running == old(self).running
                    &&& final(self).refreshed()
                    &&& out is None
                }),
                KeyInput::Backspace => ({
                    &&& (old(self).cursor_pos > 0 ==> ({
                        &&& final(self).input@ == old(self).input@.remove(
                            old(self).cursor_pos - 1,
                        )
                        &&& final(self).cursor_pos == old(self).cursor_pos - 1
                        &&& final(self).history_index == old(self).history_index
                        &&& final(self).config.history == old(self).config.history
                        &&& final(self).running == old(self).running
                        &&& final(self).refreshed()
                    }))
                    &&& (old(self).cursor_pos == 0 ==> *final(self) == *old(self))
                    &&& out is None
                }),
                KeyInput::Left => ({
                    &&& same_but_cursor(*old(self), *final(self))
                    &&& final(self).cursor_pos == (if old(self).cursor_pos > 0 {
                        old(self).cursor_pos - 1
                    } else {
                        0int
                    })
                    &&& out is None
                }),
                KeyInput::Right => ({
                    &&& same_but_cursor(*old(self), *final(self))
                    &&& final(self).cursor_pos == (if old(self).cursor_pos < old(
                        self,
                    ).input@.len() {
                        old(self).cursor_pos + 1
                    } else {
                        old(self).cursor_pos as int
                    })
                    &&& out is None
                }),
                KeyInput::Up => ({
                    &&& out is None
                    &&& (old(self).suggestions@.len() > 0 ==> ({
                        &&& same_but_selection(*old(self), *final(self))
                        &&& final(self).selected_suggestion == Some(
                            match old(self).selected_suggestion {
                                Some(i) => if i == 0 {
                                    0usize
                                } else {
                                    (i - 1) as usize
                                },
                                None => 0usize,
                            },
                        )
                    }))
                    &&& (old(self).suggestions@.len() == 0 && old(self).config.history@.len() > 0
                        ==> ({
                        let idx = match old(self).history_index {
                            Some(i) => if i == 0 {
                                0int
                            } else {
                                i - 1
                            },
                            None => old(self).config.history@.len() - 1,
                        };
                        &&& final(self).history_index == Some(idx as usize)
                        &&& final(self).input@ == old(self).config.history@[idx]@
                        &&& final(self).cursor_pos == final(self).input@.len()
                        &&& final(self).config.history == old(self).config.history
                        &&& final(self).running == old(self).running
                        &&& final(self).refreshed()
                    }))
                    &&& (old(self).suggestions@.len() == 0 && old(self).config.history@.len() == 0
                        ==> *final(self) == *old(self))
                }),
                KeyInput::Down => ({
                    &&& out is None
                    &&& (old(self).suggestions@.len() > 0 ==> ({
                        let cap = if old(self).suggestions@.len() < old(
                            self,
                        ).config.max_suggestions {
                            old(self).suggestions@.len() as int
                        } else {
                            old(self).config.max_suggestions as int
                        };
                        &&& same_but_selection(*old(self), *final(self))
                        &&& final(self).selected_suggestion == Some(
                            match old(self).selected_suggestion {
                                Some(i) => if i + 1 < cap {
                                    (i + 1) as usize
                                } else {
                                    i
                                },
                                None => 0usize,
                            },
                        )
                    }))
                    &&& (old(self).suggestions@.len() == 0 && old(self).config.history@.len() > 0
                        ==> ({
                        let idx = match old(self).history_index {
                            Some(i) => if i + 1 < old(self).config.history@.len() {
                                i + 1
                            } else {
                                i as int
                            },
                            None => 0int,
                        };
                        &&& final(self).history_index == Some(idx as usize)
                        &&& final(self).input@ == old(self).config.history@[idx]@
                        &&& final(self).cursor_pos == final(self).input@.len()
                        &&& final(self).config.history == old(self).config.history
                        &&& final(self).running == old(self).running
                        &&& final(self).refreshed()
                    }))
                    &&& (old(self).suggestions@.len() == 0 && old(self).config.history@.len() == 0
                        ==> *final(self) == *old(self))
                }),
                KeyInput::Tab => ({
                    &&& out is None
                    &&& (old(self).selected_suggestion matches Some(idx) ==> ({
                        &&& final(self).input@ == tab_buffer(
                            old(self).input@,
                            old(self).suggestions@[idx as int]@,
                        )
                        &&& final(self).cursor_pos == final(self).input@.len()
                        &&& final(self).history_index == old(self).history_index
                        &&& final(self).config.history == old(self).config.history
                        &&& final(self).running == old(self).running
                        &&& final(self).refreshed()
                    }))
                    &&& (old(self).selected_suggestion is None ==> *final(self) == *old(self))
                }),
                KeyInput::Enter => ({
                    if trim_of(old(self).input@) == "exit"@ {
                        &&& *final(self) == (PromptSession { running: false, ..*old(self) })
                        &&& out is None
                    } else if old(self).input@.len() > 0 {
                        &&& final(self).config.history.deep_view() == pushed_history(
                            old(self).config.history.deep_view(),
                            old(self).input@,
                            old(self).config.max_history as int,
                        )
                        &&& final(self).input@ == Seq::<char>::empty()
                        &&& final(self).cursor_pos == 0
                        &&& final(self).history_index is None
                        &&& final(self).running == old(self).running
                        &&& final(self).refreshed()
                        &&& execute_outcome_ok(old(self).config.registry@, old(self).input@, out)
                    } else {
                        &&& *final(self) == *old(self)
                        &&& out is None
                    }
                }),
            },
    {
        match key {
            KeyInput::Enter => {
                if trimmed_eq_str(&self.input, "exit") {
                    self.running = false;
                    return None;
                }
                if self.input.len() > 0 {
                    let ghost h0 = self.config.history.deep_view();
                    let line = string_from_chars(&self.input);
                    self.config.history.push(line.clone());
                    proof {
                        assert(self.config.history.deep_view() =~~= h0.push(line@));
                    }
                    if self.config.history.len() > self.config.max_history {
                        let _oldest = self.config.history.remove(0);
                        proof {
                            assert(self.config.history.deep_view() =~~= h0.push(
                                line@,
                            ).drop_first());
                        }
                    }
                    let out = self.config.registry.execute_command(line.as_str());
                    self.input = Vec::new();
                    self.cursor_pos = 0;
                    self.history_index = None;
                    self.update_suggestions();
                    return out;
                }
                None
            },
            KeyInput::Char(c) => {
                self.input.insert(self.cursor_pos, c);
                let n = self.input.len();
                proof {
                    assert(self.cursor_pos < n);
                }
                self.cursor_pos = self.cursor_pos + 1;
                self.update_suggestions();
                None
            },
            KeyInput::Backspace => {
                if self.cursor_pos > 0 {
                    let _removed = self.input.remove(self.cursor_pos - 1);
                    self.cursor_pos = self.cursor_pos - 1;
                    self.update_suggestions();
                }
                None
            },
            KeyInput::Left => {
                if self.cursor_pos > 0 {
                    self.cursor_pos = self.cursor_pos - 1;
                }
                None
            },
            KeyInput::Right => {
                if self.cursor_pos < self.input.len() {
                    self.cursor_pos = self.cursor_pos + 1;
                }
                None
            },
            KeyInput::Up => {
                if self.suggestions.len() > 0 {
                    self.selected_suggestion = Some(
                        match self.selected_suggestion {
                            Some(i) => if i == 0 {
                                0
                            } else {
                                i - 1
                            },
                            None => 0,
                        },
                    );
                } else if self.config.history.len() > 0 {
                    let max_index = self.config.history.len() - 1;
                    let idx = match self.history_index {
                        Some(i) => if i == 0 {
                            0
                        } else {
                            i - 1
                        },
                        None => max_index,
                    };
                    self.history_index = Some(idx);
                    self.input = chars_of(self.config.history[idx].as_str());
                    self.cursor_pos = self.input.len();
                    self.update_suggestions();
                }
                None
            },
            KeyInput::Down => {
                if self.suggestions.len() > 0 {
                    let cap = if self.suggestions.len() < self.config.max_suggestions {
                        self.suggestions.len()
                    } else {
                        self.config.max_suggestions
                    };
                    self.selected_suggestion = Some(
                        match self.selected_suggestion {
                            Some(i) => if i + 1 < cap {
                                i + 1
                            } else {
                                i
                            },
                            None => 0,
                        },
                    );
                } else if self.config.history.len() > 0 {
                    let idx = match self.history_index {
                        Some(i) => if i + 1 < self.config.history.len() {
                            i + 1
                        } else {
                            i
                        },
                        None => 0,
                    };
                    self.history_index = Some(idx);
                    self.input = chars_of(self.config.history[idx].as_str());
                    self.cursor_pos = self.input.len();
                    self.update_suggestions();
                }
                None
            },
            KeyInput::Tab => {
                match self.selected_suggestion {
                    Some(idx) => {
                        let sugg = chars_of(self.suggestions[idx].as_str());
                        let toks = tokenize(&self.input);
                        let mut more_than_one = false;
                        let mut last_has_colon = false;
                        if toks.len() > 1 {
                            more_than_one = true;
                            match find_first_colon(&toks[toks.len() - 1]) {
                                Some(_) => {
                                    last_has_colon = true;
                                },
                                None => {},
                            }
                            proof {
                                lemma_colon_pos(toks@[toks@.len() - 1]@);
                                assert(toks.deep_view()[toks@.len() - 1] =~= toks@[toks@.len()
                                    - 1]@);
                                assert(tokens_of(self.input@).last() == toks.deep_view()[toks@.len()
                                    - 1]);
                            }
                        }
                        if more_than_one && !last_has_colon {
                            proof {
                                lemma_last_space_pos(self.input@);
                            }
                            let n = self.input.len();
                            let mut nb = match rfind_space(&self.input) {
                                Some(i) => {
                                    proof {
                                        assert(i < n);
                                    }
                                    subvec(&self.input, 0, i + 1)
                                },
                                None => Vec::new(),
                            };
                            push_chars(&mut nb, &sugg);
                            proof {
                                assert(nb@ =~= tab_buffer(self.input@, sugg@));
                            }
                            self.input = nb;
                        } else {
                            self.input = sugg;
                        }
                        self.cursor_pos = self.input.len();
                        self.update_suggestions();
                        None
                    },
                    None => None,
                }
            },
        }
    }
}

/// Everything but the cursor is unchanged.
pub open spec fn same_but_cursor(s0: PromptSession, s1: PromptSession) -> bool {
    &&& s1.config == s0.config
    &&& s1.input == s0.input
    &&& s1.history_index == s0.history_index
    &&& s1.suggestions == s0.suggestions
    &&& s1.selected_suggestion == s0.selected_suggestion
    &&& s1.hint == s0.hint
    &&& s1.running == s0.running
}

/// Everything but the selected suggestion is unchanged.
pub open spec fn same_but_selection(s0: PromptSession, s1: PromptSession) -> bool {
    &&& s1.config == s0.config
    &&& s1.input == s0.input
    &&& s1.cursor_pos == s0.cursor_pos
    &&& s1.history_index == s0.history_index
    &&& s1.suggestions == s0.suggestions
    &&& s1.hint == s0.hint
    &&& s1.running == s0.running
}

/// The column padding that centres a row of the given visible length in a
/// terminal of the given width.
pub fn centered_padding(total_len: usize, terminal_width: usize) -> (r: usize)
    ensures
        r == (if total_len < terminal_width {
            (terminal_width - total_len) / 2
        } else {
            0int
        }),
{
    if total_len < terminal_width {
        (terminal_width - total_len) / 2
    } else {
        0
    }
}

/// The column of the terminal cursor on the input row: the centring
/// padding, the visible prompt width, then the cursor offset.
pub fn cursor_column(padding: usize, prompt_len: usize, cursor_pos: usize) -> (r: usize)
    requires
        padding + prompt_len + cursor_pos <= usize::MAX,
    ensures
        r == padding + prompt_len + cursor_pos,
{
    padding + prompt_len + cursor_pos
}

// ---------------------------------------------------------------------------
// Laws
// ---------------------------------------------------------------------------

/// Law: the history never holds more than the cap, and pushing past the
/// cap evicts exactly the oldest entry, first in, first out.
pub proof fn lemma_history_cap(h: Seq<Seq<char>>, entry: Seq<char>, max: int)
    requires
        h.len() <= max,
    ensures
        pushed_history(h, entry, max).len() <= max,
        h.len() < max ==> pushed_history(h, entry, max) == h.push(entry),
        h.len() == max && max >= 1 ==> pushed_history(h, entry, max) == h.drop_first().push(entry),
{
    if h.len() == max && max >= 1 {
        assert(pushed_history(h, entry, max) =~= h.drop_first().push(entry));
    }
}

/// Law: suggestion navigation never moves the selected index outside
/// `[0, min(suggestion count, panel height) - 1]`.  Well-formedness keeps
/// a selected index below the count and on a visible row; with a panel of
/// at least one row every such index lies below both bounds, and
/// `handle_key` preserves well-formedness, so no sequence of key events
/// escapes the range.  A zero-row panel is excluded: the first suggestion
/// is selected on refresh even then, at index zero.
pub proof fn lemma_selection_in_range(s: PromptSession)
    requires
        s.wf(),
        s.config.max_suggestions >= 1,
        s.selected_suggestion is Some,
    ensures
        0 <= s.selected_suggestion->0 < s.suggestions@.len(),
        s.selected_suggestion->0 < s.config.max_suggestions,
{
}

/// Law: tab completion replaces the whole buffer with the suggestion when
/// the buffer holds at most one token or the last token carries a `:`;
/// with several tokens and no `:` in the last, it keeps the buffer up to
/// and including the last space and replaces only the text after it.
pub proof fn lemma_tab_completion(buffer: Seq<char>, sugg: Seq<char>)
    ensures
        tokens_of(buffer).len() <= 1 ==> tab_buffer(buffer, sugg) == sugg,
        tokens_of(buffer).len() > 1 && has_colon(tokens_of(buffer).last()) ==> tab_buffer(
            buffer,
            sugg,
        ) == sugg,
        tokens_of(buffer).len() > 1 && !has_colon(tokens_of(buffer).last()) && last_space_pos(
            buffer,
        ) >= 0 ==> tab_buffer(buffer, sugg) == buffer.take(last_space_pos(buffer) + 1) + sugg,
{
}

} // verus!
