//! The calculator's state and its transitions, one per key.
//!
//! `CalculatorModel` is the state as mathematics, with each transition as a
//! function on it; `Calculator` is the state in memory, whose methods are
//! proved to make exactly those transitions.

use vstd::prelude::*;
use vstd::string::*;
use crate::decimal::{
    count_points, digit_of, evaluate, is_entry_char, is_entry_str, is_entry_text, point_count,
    result_text,
};
use crate::operator::MathOperator;

verus! {

/// The calculator's state as a mathematical value.
pub struct CalculatorModel {
    /// The first operand's buffer.
    pub first: Seq<char>,
    /// The second operand's buffer.
    pub second: Seq<char>,
    /// The buffer that takes the next digit: 0 or 1.
    pub active_slot: nat,
    /// The operator that was chosen and not yet applied.
    pub operation: Option<MathOperator>,
    /// The outcome of the last evaluation, until the next digit.
    pub result: Option<Seq<char>>,
    /// Whether the next digit first empties the active buffer.
    pub clear_on_input: bool,
}

/// The text of a digit key or of the point key: one entry character.
pub open spec fn is_key(d: Seq<char>) -> bool {
    d.len() == 1 && is_entry_char(d[0])
}

impl CalculatorModel {
    /// The state at start: everything empty or absent.
    pub open spec fn initial() -> Self {
        CalculatorModel {
            first: Seq::empty(),
            second: Seq::empty(),
            active_slot: 0,
            operation: None,
            result: None,
            clear_on_input: false,
        }
    }

    /// The invariant: the active slot is 0 or 1, and 1 only with an operator
    /// pending; each buffer holds digits and at most one point.
    pub open spec fn wf(self) -> bool {
        &&& self.active_slot <= 1
        &&& self.active_slot == 1 ==> self.operation.is_some()
        &&& is_entry_text(self.first)
        &&& is_entry_text(self.second)
    }

    /// The buffer that takes the next digit.
    pub open spec fn active(self) -> Seq<char> {
        if self.active_slot == 0 {
            self.first
        } else {
            self.second
        }
    }

    /// The state with the active buffer replaced.
    pub open spec fn with_active(self, text: Seq<char>) -> Self {
        if self.active_slot == 0 {
            CalculatorModel { first: text, ..self }
        } else {
            CalculatorModel { second: text, ..self }
        }
    }

    /// After the key that clears everything: both buffers empty, no operator,
    /// no result, the first slot active. The clearing flag stays as it was.
    pub open spec fn after_clear_all(self) -> Self {
        CalculatorModel { clear_on_input: self.clear_on_input, ..Self::initial() }
    }

    /// After the key that clears the entry: the clearing flag is unset, and a
    /// result that is on display takes everything else with it.
    pub open spec fn after_clear_entry(self) -> Self {
        if self.result.is_some() {
            Self::initial()
        } else {
            CalculatorModel { clear_on_input: false, ..self }
        }
    }

    /// The state that a digit or point is appended to: the initial state where
    /// a result is on display; else, where the clearing flag is set, the state
    /// with the active buffer emptied and the flag unset; else the state itself.
    pub open spec fn ready_for_digit(self) -> Self {
        if self.result.is_some() {
            Self::initial()
        } else if self.clear_on_input {
            CalculatorModel { clear_on_input: false, ..self }.with_active(Seq::empty())
        } else {
            self
        }
    }

    /// After a digit or point key. Text that is no such key changes nothing. A
    /// point is dropped where the buffer holds one already; anything else is
    /// appended to the active buffer.
    pub open spec fn after_digit(self, d: Seq<char>) -> Self {
        if !is_key(d) {
            self
        } else {
            let base = self.ready_for_digit();
            if d[0] == '.' && point_count(base.active()) > 0 {
                base
            } else {
                base.with_active(base.active() + d)
            }
        }
    }

    /// After the delete key: nothing changes while a result is on display;
    /// else the active buffer loses its last character, if it has one.
    pub open spec fn after_delete(self) -> Self {
        if self.result.is_some() || self.active().len() == 0 {
            self
        } else {
            self.with_active(self.active().drop_last())
        }
    }

    /// Whether the equals key has something to evaluate: two operands that
    /// are not empty, and an operator.
    pub open spec fn can_evaluate(self) -> bool {
        self.first.len() > 0 && self.second.len() > 0 && self.operation.is_some()
    }

    /// After the equals key. Where there is something to evaluate, the outcome
    /// becomes the result, the operator is used up, the first slot is active
    /// and the clearing flag is set; the buffers keep what was computed.
    /// Otherwise nothing changes.
    pub open spec fn after_equals(self) -> Self {
        if self.can_evaluate() {
            CalculatorModel {
                result: Some(result_text(self.first, self.operation.unwrap(), self.second)),
                operation: None,
                active_slot: 0,
                clear_on_input: true,
                ..self
            }
        } else {
            self
        }
    }

    /// After an operator key. A pending operator with a second operand is
    /// evaluated first, as by the equals key. Then the new operator is
    /// pending, the second slot is active and the clearing flag is set.
    pub open spec fn after_operator(self, op: MathOperator) -> Self {
        let evaluated = if self.operation.is_some() && self.second.len() > 0 {
            self.after_equals()
        } else {
            self
        };
        CalculatorModel {
            operation: Some(op),
            active_slot: 1,
            clear_on_input: true,
            ..evaluated
        }
    }

    /// After the active buffer is set to `text`: text that is no entry text
    /// is refused and changes nothing.
    pub open spec fn after_set(self, text: Seq<char>) -> Self {
        if is_entry_text(text) {
            self.with_active(text)
        } else {
            self
        }
    }
}

/// Entry text stays entry text when its last character is removed.
pub proof fn lemma_entry_text_drop_last(s: Seq<char>)
    requires
        is_entry_text(s),
        s.len() > 0,
    ensures
        is_entry_text(s.drop_last()),
{
}

/// Entry text with a key appended is entry text, unless the key is a second
/// point.
pub proof fn lemma_entry_text_append(s: Seq<char>, d: Seq<char>)
    requires
        is_entry_text(s),
        is_key(d),
        d[0] == '.' ==> point_count(s) == 0,
    ensures
        is_entry_text(s + d),
        point_count(s + d) == point_count(s) + if d[0] == '.' {
            1nat
        } else {
            0nat
        },
{
    assert((s + d).drop_last() =~= s);
    assert((s + d).last() == d[0]);
}

/// A second point in a row is ignored: after one point key, another leaves
/// the whole state as it is, and the active buffer holds exactly one point.
/// Where the point was typed after digits with no point among them, and
/// nothing was to be cleared first, the buffer is those digits and the point.
pub proof fn lemma_second_point_ignored(m: CalculatorModel)
    requires
        m.wf(),
    ensures
        m.after_digit(seq!['.']).after_digit(seq!['.']) == m.after_digit(seq!['.']),
        point_count(m.after_digit(seq!['.']).active()) == 1,
        m.result.is_none() && !m.clear_on_input && point_count(m.active()) == 0
            ==> m.after_digit(seq!['.']).active() == m.active().push('.'),
{
    let point = seq!['.'];
    assert(is_key(point));
    let base = m.ready_for_digit();
    assert(base.result.is_none() && !base.clear_on_input);
    assert(is_entry_text(base.active())) by {
        assert(point_count(Seq::<char>::empty()) == 0);
    }
    let once = m.after_digit(point);
    if point_count(base.active()) == 0 {
        lemma_entry_text_append(base.active(), point);
        assert(once.active() == base.active() + point);
        assert(base.active() + point =~= base.active().push('.'));
    }
    assert(once.ready_for_digit() == once);
}

/// Once an evaluation has put a result on display, a digit or point key
/// starts afresh: both buffers are emptied before the key is appended, so the
/// first buffer holds the key alone and nothing else is left of the old state.
pub proof fn lemma_digit_after_result(m: CalculatorModel, d: Seq<char>)
    requires
        m.wf(),
        m.can_evaluate(),
        is_key(d),
    ensures
        m.after_equals().result.is_some(),
        m.after_equals().after_digit(d) == CalculatorModel::initial().after_digit(d),
        m.after_equals().after_digit(d).first == d,
        m.after_equals().after_digit(d).second.len() == 0,
        m.after_equals().after_digit(d).result.is_none(),
{
    assert(point_count(Seq::<char>::empty()) == 0);
    assert(Seq::<char>::empty() + d =~= d);
}

/// A result never outlasts a digit or point key, and only the equals and
/// operator keys can put one on display.
pub proof fn lemma_result_comes_from_evaluation(m: CalculatorModel, d: Seq<char>)
    ensures
        is_key(d) ==> m.after_digit(d).result.is_none(),
        m.result.is_none() ==> m.after_digit(d).result.is_none(),
        m.result.is_none() ==> m.after_delete().result.is_none(),
        m.result.is_none() ==> m.after_set(d).result.is_none(),
        m.after_clear_entry().result.is_none(),
        m.after_clear_all().result.is_none(),
        m.can_evaluate() ==> m.after_equals().result == Some(
            result_text(m.first, m.operation.unwrap(), m.second),
        ),
{
}

/// While a result is on display the delete key changes nothing.
pub proof fn lemma_delete_keeps_result(m: CalculatorModel)
    requires
        m.result.is_some(),
    ensures
        m.after_delete() == m,
{
}

/// Every transition keeps the invariant.
pub proof fn lemma_transitions_keep_wf(m: CalculatorModel, d: Seq<char>, op: MathOperator)
    requires
        m.wf(),
    ensures
        CalculatorModel::initial().wf(),
        m.after_clear_all().wf(),
        m.after_clear_entry().wf(),
        m.after_digit(d).wf(),
        m.after_delete().wf(),
        m.after_equals().wf(),
        m.after_operator(op).wf(),
        m.after_set(d).wf(),
{
    assert(point_count(Seq::<char>::empty()) == 0);
    if is_key(d) {
        let base = m.ready_for_digit();
        if !(d[0] == '.' && point_count(base.active()) > 0) {
            lemma_entry_text_append(base.active(), d);
        }
    }
    if m.active().len() > 0 {
        lemma_entry_text_drop_last(m.active());
    }
}

/// The calculator's state.
pub struct Calculator {
    current_num_index: usize,
    clear_current_on_input: bool,
    first: String,
    second: String,
    result: Option<String>,
    operation: Option<MathOperator>,
}

impl View for Calculator {
    type V = CalculatorModel;

    closed spec fn view(&self) -> CalculatorModel {
        CalculatorModel {
            first: self.first@,
            second: self.second@,
            active_slot: self.current_num_index as nat,
            operation: self.operation,
            result: match self.result {
                Some(text) => Some(text@),
                None => None,
            },
            clear_on_input: self.clear_current_on_input,
        }
    }
}

impl Calculator {
    /// The invariant that every method keeps.
    pub open spec fn wf(&self) -> bool {
        self@.wf()
    }

    /// A calculator in its initial state.
    pub fn new() -> (calc: Self)
        ensures
            calc.wf(),
            calc@ == CalculatorModel::initial(),
    {
        Calculator {
            current_num_index: 0,
            clear_current_on_input: false,
            first: String::new(),
            second: String::new(),
            result: None,
            operation: None,
        }
    }

    /// The first operand's buffer.
    pub fn first_operand(&self) -> (text: &str)
        ensures
            text@ == self@.first,
    {
        self.first.as_str()
    }

    /// The second operand's buffer.
    pub fn second_operand(&self) -> (text: &str)
        ensures
            text@ == self@.second,
    {
        self.second.as_str()
    }

    /// The index of the buffer that takes the next digit.
    pub fn active_slot(&self) -> (slot: usize)
        ensures
            slot == self@.active_slot,
    {
        self.current_num_index
    }

    /// The pending operator.
    pub fn operation(&self) -> (op: Option<MathOperator>)
        ensures
            op == self@.operation,
    {
        self.operation
    }

    /// The result on display.
    pub fn result(&self) -> (text: Option<&str>)
        ensures
            text.is_some() == self@.result.is_some(),
            text.is_some() ==> text.unwrap()@ == self@.result.unwrap(),
    {
        match &self.result {
            Some(text) => Some(text.as_str()),
            None => None,
        }
    }

    /// Whether the next digit first empties the active buffer.
    pub fn clears_on_input(&self) -> (flag: bool)
        ensures
            flag == self@.clear_on_input,
    {
        self.clear_current_on_input
    }

    /// Clears both buffers, the operator and the result, and makes the first
    /// slot active.
    pub fn clear_all(&mut self)
        ensures
            final(self).wf(),
            final(self)@ == old(self)@.after_clear_all(),
            final(self)@.active_slot == 0,
            final(self)@.first.len() == 0,
            final(self)@.second.len() == 0,
            final(self)@.operation.is_none(),
            final(self)@.result.is_none(),
            final(self)@.clear_on_input == old(self)@.clear_on_input,
    {
        self.current_num_index = 0;
        self.result = None;
        self.operation = None;
        self.first = String::new();
        self.second = String::new();
    }

    /// Unsets the clearing flag; with a result on display, clears everything.
    pub fn clear_entry(&mut self)
        ensures
            old(self).wf() ==> final(self).wf(),
            final(self)@ == old(self)@.after_clear_entry(),
    {
        proof {
            if old(self).wf() {
                lemma_transitions_keep_wf(old(self)@, Seq::empty(), MathOperator::Add);
            }
        }
        self.clear_current_on_input = false;
        if self.result.is_some() {
            self.clear_all();
        }
    }

    /// Evaluates the pending operation, if both operands and an operator are
    /// there.
    pub fn on_equals(&mut self)
        ensures
            old(self).wf() ==> final(self).wf(),
            final(self)@ == old(self)@.after_equals(),
    {
        proof {
            if old(self).wf() {
                lemma_transitions_keep_wf(old(self)@, Seq::empty(), MathOperator::Add);
            }
        }
        let op = match self.operation {
            Some(op) => op,
            None => {
                return;
            },
        };
        if self.first.as_str().unicode_len() == 0 || self.second.as_str().unicode_len() == 0 {
            return;
        }
        let text = evaluate(self.first.as_str(), op, self.second.as_str());
        self.result = Some(text);
        self.operation = None;
        self.current_num_index = 0;
        self.clear_current_on_input = true;
    }

    /// Removes the last character of the active buffer. With a result on
    /// display, or an empty buffer, nothing changes.
    pub fn on_delete(&mut self)
        ensures
            old(self).wf() ==> final(self).wf(),
            final(self)@ == old(self)@.after_delete(),
            old(self)@.result.is_some() ==> final(self)@ == old(self)@,
    {
        proof {
            if old(self).wf() {
                lemma_transitions_keep_wf(old(self)@, Seq::empty(), MathOperator::Add);
            }
        }
        if self.result.is_some() {
            return;
        }
        let num = self.get_current_number();
        let n = num.as_str().unicode_len();
        if n > 0 {
            let shorter = String::from_str(num.as_str().substring_char(0, n - 1));
            proof {
                assert(shorter@ =~= num@.drop_last());
            }
            self.store_current_number(shorter);
        }
    }

    /// Takes a digit or point key. Text that is neither changes nothing.
    pub fn on_entered_digit(&mut self, digit: &str)
        ensures
            old(self).wf() ==> final(self).wf(),
            final(self)@ == old(self)@.after_digit(digit@),
    {
        proof {
            if old(self).wf() {
                lemma_transitions_keep_wf(old(self)@, digit@, MathOperator::Add);
            }
        }
        if digit.unicode_len() != 1 {
            return;
        }
        let c = digit.get_char(0);
        if c != '.' && digit_of(c).is_none() {
            return;
        }
        if self.result.is_some() {
            self.clear_all();
            self.clear_current_on_input = false;
        } else if self.clear_current_on_input {
            self.clear_current_on_input = false;
            self.store_current_number(String::new());
        }
        assert(self@ == old(self)@.ready_for_digit());
        let mut num = self.get_current_number();
        if c == '.' && count_points(num.as_str()) > 0 {
            return;
        }
        num.append(digit);
        self.store_current_number(num);
    }

    /// A copy of the active buffer.
    pub fn get_current_number(&mut self) -> (text: String)
        ensures
            *final(self) == *old(self),
            text@ == old(self)@.active(),
    {
        if self.current_num_index == 0 {
            self.first.clone()
        } else {
            self.second.clone()
        }
    }

    /// Replaces the active buffer, if the new text holds only digits and at
    /// most one point; other text is refused and changes nothing.
    pub fn set_current_number(&mut self, new_num: String)
        ensures
            old(self).wf() ==> final(self).wf(),
            final(self)@ == old(self)@.after_set(new_num@),
    {
        proof {
            if old(self).wf() {
                lemma_transitions_keep_wf(old(self)@, new_num@, MathOperator::Add);
            }
        }
        if is_entry_str(new_num.as_str()) {
            self.store_current_number(new_num);
        }
    }

    fn store_current_number(&mut self, new_num: String)
        ensures
            final(self)@ == old(self)@.with_active(new_num@),
    {
        if self.current_num_index == 0 {
            self.first = new_num;
        } else {
            self.second = new_num;
        }
    }

    /// Takes an operator key: evaluates what is pending, then makes the new
    /// operator pending and the second slot active.
    pub fn on_entered_operator(&mut self, operator: MathOperator)
        ensures
            old(self).wf() ==> final(self).wf(),
            final(self)@ == old(self)@.after_operator(operator),
    {
        proof {
            if old(self).wf() {
                lemma_transitions_keep_wf(old(self)@, Seq::empty(), operator);
            }
        }
        if self.operation.is_some() && self.second.as_str().unicode_len() > 0 {
            self.on_equals();
        }
        self.operation = Some(operator);
        self.current_num_index = 1;
        self.clear_current_on_input = true;
    }
}

} // verus!
