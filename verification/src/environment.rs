//! Settings from the environment: a table of names and values.

use crate::text;
use crate::text::{decimal, law_decimal_round_trip, lowered, number_of};
use vstd::prelude::*;

verus! {

/// The variables that a service was started with.
#[derive(Debug)]
pub struct Environment {
    pub vars: Vec<(String, String)>,
}

/// Why a configuration cannot be made.
#[derive(Debug)]
pub enum ConfigError {
    /// A variable that has no default is not set.
    Missing { key: String },
}

/// A value that a process fixes once: what it is first set to stays.
pub struct Fixed<T> {
    value: Option<T>,
}

impl<T> View for Fixed<T> {
    type V = Option<T>;

    closed spec fn view(&self) -> Option<T> {
        self.value
    }
}

impl<T> Fixed<T> {
    /// A value that is not fixed yet.
    pub fn new() -> (fixed: Self)
        ensures
            fixed@ is None,
    {
        Fixed { value: None }
    }

    pub fn is_set(&self) -> (set: bool)
        ensures
            set == (self@ is Some),
    {
        self.value.is_some()
    }

    /// Fixes the value, unless it is fixed already.
    pub fn set(&mut self, value: T)
        ensures
            final(self)@ == (match old(self)@ {
                Some(first) => Some(first),
                None => Some(value),
            }),
    {
        if self.value.is_none() {
            self.value = Some(value);
        }
    }

    pub fn get(&self) -> (value: &T)
        requires
            self@ is Some,
        ensures
            Some(*value) == self@,
    {
        self.value.as_ref().unwrap()
    }
}

impl View for Environment {
    type V = Seq<(Seq<char>, Seq<char>)>;

    open spec fn view(&self) -> Seq<(Seq<char>, Seq<char>)> {
        Seq::new(self.vars@.len(), |i: int| (self.vars@[i].0@, self.vars@[i].1@))
    }
}

/// The value of the first variable with this name.
pub open spec fn lookup(vars: Seq<(Seq<char>, Seq<char>)>, key: Seq<char>) -> Option<Seq<char>>
    decreases vars.len(),
{
    if vars.len() == 0 {
        None
    } else if vars[0].0 == key {
        Some(vars[0].1)
    } else {
        lookup(vars.skip(1), key)
    }
}

/// The value of a variable, or a default where it is not set.
pub open spec fn text_or(
    vars: Seq<(Seq<char>, Seq<char>)>,
    key: Seq<char>,
    default: Seq<char>,
) -> Seq<char> {
    match lookup(vars, key) {
        Some(value) => value,
        None => default,
    }
}

/// The number that a variable holds, or a default where it is not set or holds
/// no number up to `max`.
pub open spec fn number_or(
    vars: Seq<(Seq<char>, Seq<char>)>,
    key: Seq<char>,
    max: nat,
    default: nat,
) -> nat {
    match lookup(vars, key) {
        Some(value) => match number_of(value, max) {
            Some(n) => n,
            None => default,
        },
        None => default,
    }
}

/// Whether a value says yes: 1, true, yes or on, in any case.
pub open spec fn says_yes(value: Seq<char>) -> bool {
    ||| lowered(value) == "1"@
    ||| lowered(value) == "true"@
    ||| lowered(value) == "yes"@
    ||| lowered(value) == "on"@
}

/// Whether a variable says yes, or a default where it is not set.
pub open spec fn flag_or(
    vars: Seq<(Seq<char>, Seq<char>)>,
    key: Seq<char>,
    default: bool,
) -> bool {
    match lookup(vars, key) {
        Some(value) => says_yes(value),
        None => default,
    }
}

/// The first of `keys` that is not set.
pub open spec fn first_missing(
    vars: Seq<(Seq<char>, Seq<char>)>,
    keys: Seq<Seq<char>>,
) -> Option<Seq<char>>
    decreases keys.len(),
{
    if keys.len() == 0 {
        None
    } else if lookup(vars, keys[0]) is None {
        Some(keys[0])
    } else {
        first_missing(vars, keys.skip(1))
    }
}

impl Environment {
    /// The value of the variable `key`.
    pub fn var(&self, key: &str) -> (value: Option<String>)
        ensures
            crate::wire::view_of(value) == lookup(self@, key@),
    {
        let mut i: usize = 0;
        proof {
            assert(self@.skip(0) =~= self@);
        }
        while i < self.vars.len()
            invariant
                i <= self.vars@.len(),
                lookup(self@, key@) == lookup(self@.skip(i as int), key@),
            decreases self.vars@.len() - i,
        {
            proof {
                assert(self@.skip(i as int)[0] == self@[i as int]);
                assert(self@.skip(i as int).skip(1) =~= self@.skip(i + 1));
            }
            if text::same_text(self.vars[i].0.as_str(), key) {
                return Some(self.vars[i].1.clone());
            }
            i = i + 1;
        }
        None
    }

    pub fn env_required(&self, key: &str) -> (value: Result<String, ConfigError>)
        ensures
            match value {
                Ok(v) => lookup(self@, key@) == Some(v@),
                Err(ConfigError::Missing { key: k }) => lookup(self@, key@) is None && k@ == key@,
            },
    {
        match self.var(key) {
            Some(v) => Ok(v),
            None => Err(ConfigError::Missing { key: key.to_owned() }),
        }
    }

    pub fn env_or(&self, key: &str, default: &str) -> (value: String)
        ensures
            value@ == text_or(self@, key@, default@),
    {
        match self.var(key) {
            Some(v) => v,
            None => default.to_owned(),
        }
    }

    pub fn env_number(&self, key: &str, max: u64, default: u64) -> (value: u64)
        ensures
            value == number_or(self@, key@, max as nat, default as nat),
            default <= max ==> value <= max,
    {
        match self.var(key) {
            Some(v) => match text::parse_number(v.as_str(), max) {
                Some(n) => n,
                None => default,
            },
            None => default,
        }
    }

    pub fn env_u8(&self, key: &str, default: u8) -> (value: u8)
        ensures
            value == number_or(self@, key@, u8::MAX as nat, default as nat),
    {
        self.env_number(key, u8::MAX as u64, default as u64) as u8
    }

    pub fn env_u16(&self, key: &str, default: u16) -> (value: u16)
        ensures
            value == number_or(self@, key@, u16::MAX as nat, default as nat),
    {
        self.env_number(key, u16::MAX as u64, default as u64) as u16
    }

    pub fn env_u64(&self, key: &str, default: u64) -> (value: u64)
        ensures
            value == number_or(self@, key@, u64::MAX as nat, default as nat),
    {
        self.env_number(key, u64::MAX, default)
    }

    pub fn env_bool(&self, key: &str, default: bool) -> (value: bool)
        ensures
            value == flag_or(self@, key@, default),
    {
        match self.var(key) {
            Some(v) => {
                let v = v.as_str();
                text::lowers_to(v, "1") || text::lowers_to(v, "true") || text::lowers_to(v, "yes")
                    || text::lowers_to(v, "on")
            },
            None => default,
        }
    }
}

/// The value of a variable is that of the first entry with its name, and there is
/// none only where no entry has it.
pub proof fn law_first_value_counts(vars: Seq<(Seq<char>, Seq<char>)>, key: Seq<char>)
    ensures
        match lookup(vars, key) {
            Some(value) => exists|k: int|
                0 <= k < vars.len() && #[trigger] vars[k] == (key, value) && forall|i: int|
                    0 <= i < k ==> (#[trigger] vars[i]).0 != key,
            None => forall|i: int| 0 <= i < vars.len() ==> (#[trigger] vars[i]).0 != key,
        },
    decreases vars.len(),
{
    if vars.len() > 0 {
        let rest = vars.skip(1);
        law_first_value_counts(rest, key);
        if vars[0].0 == key {
            assert(vars[0] == (key, vars[0].1));
        } else {
            match lookup(rest, key) {
                Some(value) => {
                    let k = choose|k: int|
                        0 <= k < rest.len() && #[trigger] rest[k] == (key, value) && forall|i: int|
                            0 <= i < k ==> (#[trigger] rest[i]).0 != key;
                    assert(vars[k + 1] == (key, value));
                    assert forall|i: int| 0 <= i < k + 1 implies (#[trigger] vars[i]).0 != key by {
                        if i > 0 {
                            assert(rest[i - 1] == vars[i]);
                        }
                    }
                },
                None => {
                    assert forall|i: int| 0 <= i < vars.len() implies (#[trigger] vars[i]).0
                        != key by {
                        if i > 0 {
                            assert(rest[i - 1] == vars[i]);
                        }
                    }
                },
            }
        }
    }
}

/// Whether a setting is what its variable says: the default where it is unset,
/// and the number that it holds in decimal, up to `max`.
pub open spec fn is_setting(
    vars: Seq<(Seq<char>, Seq<char>)>,
    key: Seq<char>,
    max: nat,
    default: nat,
    value: nat,
) -> bool {
    &&& lookup(vars, key) is None ==> value == default
    &&& forall|n: nat|
        n <= max && lookup(vars, key) == Some(#[trigger] decimal(n)) ==> value == n
}

/// A number is read from its variable, and the default holds where it is unset or
/// holds no number in range.
pub proof fn law_numbers_are_read(
    vars: Seq<(Seq<char>, Seq<char>)>,
    key: Seq<char>,
    max: nat,
    default: nat,
)
    ensures
        is_setting(vars, key, max, default, number_or(vars, key, max, default)),
        number_or(vars, key, max, default) <= max || number_or(vars, key, max, default) == default,
{
    assert forall|n: nat|
        n <= max && lookup(vars, key) == Some(#[trigger] decimal(n)) implies number_or(
        vars,
        key,
        max,
        default,
    ) == n by {
        law_decimal_round_trip(n, max);
    }
}

/// A text is taken as it stands in its variable.
pub proof fn law_texts_are_read(
    vars: Seq<(Seq<char>, Seq<char>)>,
    key: Seq<char>,
    default: Seq<char>,
)
    ensures
        lookup(vars, key) is None ==> text_or(vars, key, default) == default,
        lookup(vars, key) matches Some(value) ==> text_or(vars, key, default) == value,
{
}

/// A flag is set by 1, true, yes and on, in whatever case their letters are, and
/// by nothing else; where its variable is unset the default holds.
pub proof fn law_flags_ignore_case(
    vars: Seq<(Seq<char>, Seq<char>)>,
    key: Seq<char>,
    default: bool,
    a: Seq<char>,
    b: Seq<char>,
)
    requires
        a.len() == b.len(),
        forall|i: int|
            0 <= i < a.len() ==> #[trigger] a[i] == b[i] || (65 <= a[i] as u32 <= 90 && b[i] as u32
                == a[i] as u32 + 32),
    ensures
        says_yes(a) == says_yes(b),
        says_yes("1"@),
        says_yes("true"@),
        says_yes("yes"@),
        says_yes("on"@),
        !says_yes("0"@),
        !says_yes("false"@),
        !says_yes("no"@),
        !says_yes("off"@),
        lookup(vars, key) is None ==> flag_or(vars, key, default) == default,
        lookup(vars, key) == Some(a) ==> flag_or(vars, key, default) == says_yes(a),
{
    assert forall|i: int| 0 <= i < a.len() implies lowered(a)[i] == lowered(b)[i] by {
        if a[i] != b[i] {
            vstd::utf8::char_u32_cast(b[i], (a[i] as u32 + 32) as u32);
        }
    }
    assert(lowered(a) =~= lowered(b));
    reveal_strlit("1");
    reveal_strlit("true");
    reveal_strlit("yes");
    reveal_strlit("on");
    reveal_strlit("0");
    reveal_strlit("false");
    reveal_strlit("no");
    reveal_strlit("off");
    assert(lowered("1"@) =~= "1"@);
    assert(lowered("true"@) =~= "true"@);
    assert(lowered("yes"@) =~= "yes"@);
    assert(lowered("on"@) =~= "on"@);
    assert(lowered("0"@)[0] == '0');
    assert(lowered("no"@)[0] == 'n');
    assert(lowered("off"@)[1] == 'f');
    assert(lowered("false"@).len() == 5);
}

/// The variable that is reported as missing is the first of those that are
/// needed and are not set, and none is reported only where all are set.
pub proof fn law_first_missing(vars: Seq<(Seq<char>, Seq<char>)>, keys: Seq<Seq<char>>)
    ensures
        match first_missing(vars, keys) {
            Some(key) => exists|k: int|
                0 <= k < keys.len() && #[trigger] keys[k] == key && lookup(vars, key) is None
                    && forall|i: int| 0 <= i < k ==> lookup(vars, #[trigger] keys[i]) is Some,
            None => forall|i: int| 0 <= i < keys.len() ==> lookup(vars, #[trigger] keys[i]) is Some,
        },
    decreases keys.len(),
{
    if keys.len() > 0 {
        let rest = keys.skip(1);
        law_first_missing(vars, rest);
        if lookup(vars, keys[0]) is None {
            assert(keys[0] == first_missing(vars, keys)->0);
        } else {
            match first_missing(vars, rest) {
                Some(key) => {
                    let k = choose|k: int|
                        0 <= k < rest.len() && #[trigger] rest[k] == key && lookup(vars, key)
                            is None && forall|i: int|
                            0 <= i < k ==> lookup(vars, #[trigger] rest[i]) is Some;
                    assert(keys[k + 1] == key);
                    assert forall|i: int| 0 <= i < k + 1 implies lookup(
                        vars,
                        #[trigger] keys[i],
                    ) is Some by {
                        if i > 0 {
                            assert(rest[i - 1] == keys[i]);
                        }
                    }
                },
                None => {
                    assert forall|i: int| 0 <= i < keys.len() implies lookup(
                        vars,
                        #[trigger] keys[i],
                    ) is Some by {
                        if i > 0 {
                            assert(rest[i - 1] == keys[i]);
                        }
                    }
                },
            }
        }
    }
}

} // verus!
