//! Policies: which policy a client is judged under, and which rules that
//! policy is allowed to see. Every compiled rule carries a `u16` mask of the
//! policies that can see it.

use vstd::prelude::*;

use crate::text::{chars_of, debug_quoted, decimal_text, eq_chars, push_decimal, push_str, str_debug, string_of};

verus! {

/// Every policy bit set — what a rule carries when no policies are
/// configured.
pub const ALL_POLICIES: u16 = 0xFFFF;

/// How many policies may exist, the default included: one bit each in a
/// `u16` mask.
pub const MAX_POLICIES: usize = 16;

/// A policy's position in the compiled set; `0` is the default policy.
#[derive(Debug, Clone, Copy, PartialEq, Eq, Structural)]
pub struct PolicyId(pub u8);

impl PolicyId {
    /// The default policy.
    pub fn default_policy() -> (p: PolicyId)
        ensures
            p.0 == 0,
    {
        PolicyId(0)
    }

    /// The policy's bit in a visibility mask; none for an id past
    /// [`MAX_POLICIES`].
    pub open spec fn spec_bit(self) -> u16 {
        if self.0 < 16 {
            (1u16 << self.0)
        } else {
            0
        }
    }

    pub fn bit(&self) -> (b: u16)
        ensures
            b == self.spec_bit(),
    {
        if self.0 < 16 {
            1u16 << self.0
        } else {
            0
        }
    }
}

/// Why a policy configuration cannot be compiled.
#[derive(Debug, Clone, PartialEq, Eq)]
pub enum PolicyError {
    Timezone(String),
    TooMany { max: usize, got: usize },
    Assignment { policy: String, message: String },
}

/// The text of a policy error.
pub open spec fn policy_error_text(e: PolicyError) -> Seq<char> {
    match e {
        PolicyError::Timezone(tz) => "invalid timezone: "@ + tz@,
        PolicyError::TooMany { max, got } => "at most "@ + decimal_text(max as nat)
            + " policies may exist including the default; got "@ + decimal_text(got as nat),
        PolicyError::Assignment { policy, message } => "policy "@ + str_debug(policy@) + ": "@
            + message@,
    }
}

impl PolicyError {
    /// The error as a sentence.
    pub fn message(&self) -> (m: String)
        ensures
            m@ == policy_error_text(*self),
    {
        let mut out: Vec<char> = Vec::new();
        match self {
            PolicyError::Timezone(tz) => {
                push_str(&mut out, "invalid timezone: ");
                push_str(&mut out, tz.as_str());
            },
            PolicyError::TooMany { max, got } => {
                push_str(&mut out, "at most ");
                push_decimal(&mut out, *max);
                push_str(&mut out, " policies may exist including the default; got ");
                push_decimal(&mut out, *got);
            },
            PolicyError::Assignment { policy, message } => {
                push_str(&mut out, "policy ");
                let quoted = debug_quoted(policy.as_str());
                push_str(&mut out, quoted.as_str());
                push_str(&mut out, ": ");
                push_str(&mut out, message.as_str());
            },
        }
        string_of(out.as_slice())
    }
}


/// Policy `sel` sees list `list`: a policy naming no lists sees every one.
pub open spec fn sees_list(sel: Option<Seq<Seq<char>>>, list: Seq<char>) -> bool {
    match sel {
        None => true,
        Some(names) => names.contains(list),
    }
}

/// The bits of the policies among the first `n` that see `list`, the
/// default's always among them.
pub open spec fn mask_upto(sels: Seq<Option<Seq<Seq<char>>>>, list: Seq<char>, n: int) -> u16
    decreases n,
{
    if n <= 1 {
        PolicyId(0).spec_bit()
    } else {
        mask_upto(sels, list, n - 1) | if sees_list(sels[n - 1], list) {
            PolicyId((n - 1) as u8).spec_bit()
        } else {
            0u16
        }
    }
}

/// The default policy sees every list.
pub proof fn lemma_default_bit(sels: Seq<Option<Seq<Seq<char>>>>, list: Seq<char>, n: int)
    ensures
        mask_upto(sels, list, n) & 1u16 == 1u16,
    decreases n,
{
    if n <= 1 {
        assert((1u16 << 0u8) & 1u16 == 1u16) by (bit_vector);
    } else {
        lemma_default_bit(sels, list, n - 1);
        let a = mask_upto(sels, list, n - 1);
        let b = if sees_list(sels[n - 1], list) {
            PolicyId((n - 1) as u8).spec_bit()
        } else {
            0u16
        };
        assert((a | b) & 1u16 == 1u16) by (bit_vector)
            requires
                a & 1u16 == 1u16,
        ;
    }
}

/// A list's visibility mask: every bit when the default is the only policy,
/// else the default's bit and that of every policy that sees the list.
pub open spec fn spec_mask_for(sels: Seq<Option<Seq<Seq<char>>>>, list: Seq<char>) -> u16 {
    if sels.len() <= 1 {
        ALL_POLICIES
    } else {
        mask_upto(sels, list, sels.len() as int)
    }
}

/// A policy's list selection as values.
pub open spec fn selection_view(sel: Option<Vec<String>>) -> Option<Seq<Seq<char>>> {
    match sel {
        None => None,
        Some(names) => Some(names@.map_values(|n: String| n@)),
    }
}

/// The id the default policy goes by.
pub open spec fn default_policy_id() -> Seq<char> {
    seq!['d', 'e', 'f', 'a', 'u', 'l', 't']
}

fn default_name() -> (s: String)
    ensures
        s@ == default_policy_id(),
{
    let chars = vec!['d', 'e', 'f', 'a', 'u', 'l', 't'];
    assert(chars@ =~= default_policy_id());
    string_of(chars.as_slice())
}

/// The policies as the ruleset compile reads them: in id order, each
/// policy's name and the lists it sees, `None` for every enabled list. The
/// default policy comes first and sees every list.
pub struct PolicySet {
    ids: Vec<String>,
    selections: Vec<Option<Vec<String>>>,
}

impl PolicySet {
    pub closed spec fn ids(&self) -> Seq<Seq<char>> {
        self.ids@.map_values(|s: String| s@)
    }

    pub closed spec fn selections(&self) -> Seq<Option<Seq<Seq<char>>>> {
        self.selections@.map_values(|s: Option<Vec<String>>| selection_view(s))
    }

    /// The default policy is there, first, and seeing every list; there is
    /// one bit for every policy, and one name.
    pub closed spec fn wf(&self) -> bool {
        &&& 1 <= self.selections@.len() <= MAX_POLICIES
        &&& self.selections@[0] is None
        &&& self.ids@.len() == self.selections@.len()
        &&& self.ids@[0]@ == default_policy_id()
    }

    /// The set with nothing but the default policy.
    pub fn single_default() -> (p: PolicySet)
        ensures
            p.wf(),
            p.selections() == seq![None::<Seq<Seq<char>>>],
            p.ids() == seq![default_policy_id()],
    {
        let mut selections: Vec<Option<Vec<String>>> = Vec::new();
        selections.push(None);
        let mut ids: Vec<String> = Vec::new();
        ids.push(default_name());
        let p = PolicySet { ids, selections };
        assert(p.selections() =~= seq![None::<Seq<Seq<char>>>]);
        assert(p.ids() =~= seq![default_policy_id()]);
        p
    }

    /// The set of the default policy followed by the configured ones, each
    /// given by its name and the lists it sees; more policies than mask
    /// bits is an error.
    pub fn from_list_selections(configured: Vec<(String, Option<Vec<String>>)>) -> (r: Result<
        PolicySet,
        PolicyError,
    >)
        requires
            configured.len() < usize::MAX,
        ensures
            (configured.len() + 1 > MAX_POLICIES) == (r is Err),
            r matches Err(e) ==> (e == (PolicyError::TooMany {
                max: MAX_POLICIES,
                got: (configured.len() + 1) as usize,
            })),
            r matches Ok(p) ==> p.wf() && p.selections() == seq![None::<Seq<Seq<char>>>]
                + configured@.map_values(|c: (String, Option<Vec<String>>)| selection_view(c.1))
                && p.ids() == seq![default_policy_id()] + configured@.map_values(
                |c: (String, Option<Vec<String>>)| c.0@,
            ),
    {
        if configured.len() >= MAX_POLICIES {
            return Err(PolicyError::TooMany { max: MAX_POLICIES, got: configured.len() + 1 });
        }
        let ghost given = configured@;
        let mut selections: Vec<Option<Vec<String>>> = Vec::new();
        selections.push(None);
        let mut ids: Vec<String> = Vec::new();
        ids.push(default_name());
        let mut rest = configured;
        let mut taken: Vec<(String, Option<Vec<String>>)> = Vec::new();
        while rest.len() > 0
            invariant
                rest@ + taken@.reverse() == given,
                given.len() < MAX_POLICIES,
            decreases rest.len(),
        {
            let ghost before = rest@;
            let last = rest.pop().unwrap();
            proof {
                assert(before == rest@.push(last));
            }
            taken.push(last);
            proof {
                assert(rest@ + taken@.reverse() =~= given);
            }
        }
        proof {
            assert(taken@.reverse() =~= given);
        }
        while taken.len() > 0
            invariant
                selections@.len() >= 1,
                selections@[0] is None,
                ids@.len() == selections@.len(),
                ids@[0]@ == default_policy_id(),
                given.len() < MAX_POLICIES,
                selections@.len() + taken@.len() == given.len() + 1,
                forall|j: int|
                    0 <= j < selections@.len() - 1 ==> selections@[j + 1] == (#[trigger] given[j]).1
                        && ids@[j + 1] == given[j].0,
                forall|j: int|
                    0 <= j < taken@.len() ==> #[trigger] taken@[j] == given[given.len() - 1 - j],
            decreases taken.len(),
        {
            let ghost before = taken@;
            let next = taken.pop().unwrap();
            proof {
                assert(before == taken@.push(next));
                assert(next == given[selections@.len() - 1]);
            }
            let (id, sel) = next;
            selections.push(sel);
            ids.push(id);
        }
        let p = PolicySet { ids, selections };
        proof {
            assert(p.selections() =~= seq![None::<Seq<Seq<char>>>] + given.map_values(
                |c: (String, Option<Vec<String>>)| selection_view(c.1),
            ));
            assert(p.ids() =~= seq![default_policy_id()] + given.map_values(
                |c: (String, Option<Vec<String>>)| c.0@,
            ));
        }
        Ok(p)
    }

    /// The policy going by `id`, the first if names repeat.
    pub fn id_of(&self, id: &str) -> (r: Option<PolicyId>)
        requires
            self.wf(),
        ensures
            match r {
                Some(p) => p.0 < self.ids().len() && self.ids()[p.0 as int] == id@ && forall|j: int|
                    0 <= j < p.0 ==> self.ids()[j] != id@,
                None => forall|j: int| 0 <= j < self.ids().len() ==> self.ids()[j] != id@,
            },
    {
        let wanted = chars_of(id);
        let mut k: usize = 0;
        while k < self.ids.len()
            invariant
                self.wf(),
                wanted@ == id@,
                k <= self.ids@.len(),
                forall|j: int| 0 <= j < k ==> self.ids()[j] != id@,
            decreases self.ids.len() - k,
        {
            let name = chars_of(self.ids[k].as_str());
            if eq_chars(name.as_slice(), wanted.as_slice()) {
                return Some(PolicyId(k as u8));
            }
            k += 1;
        }
        None
    }

    /// How many policies exist, the default included.
    pub fn len(&self) -> (n: usize)
        ensures
            n == self.selections().len(),
    {
        self.selections.len()
    }

    pub fn is_empty(&self) -> (b: bool)
        ensures
            b == (self.selections().len() == 0),
    {
        self.selections.len() == 0
    }

    /// Nothing but the default policy exists, so a compiled ruleset needs no
    /// per-rule masks.
    pub fn is_default_only(&self) -> (b: bool)
        ensures
            b == (self.selections().len() <= 1),
    {
        self.selections.len() <= 1
    }

    /// The mask of the policies that see rules from `list`: the default's
    /// bit always, a configured policy's when it names the list or names
    /// none; every bit when the default is all there is.
    pub fn mask_for_list(&self, list: &str) -> (mask: u16)
        requires
            self.wf(),
        ensures
            mask == spec_mask_for(self.selections(), list@),
            mask & 1u16 == 1u16,
    {
        if self.selections.len() <= 1 {
            assert(0xFFFFu16 & 1u16 == 1u16) by (bit_vector);
            return ALL_POLICIES;
        }
        let ghost sels = self.selections();
        let wanted = chars_of(list);
        let mut mask: u16 = PolicyId(0).bit();
        let mut index: usize = 1;
        while index < self.selections.len()
            invariant
                self.wf(),
                sels == self.selections(),
                wanted@ == list@,
                1 <= index <= self.selections@.len(),
                mask == mask_upto(sels, list@, index as int),
            decreases self.selections.len() - index,
        {
            let sees = match &self.selections[index] {
                None => true,
                Some(names) => {
                    let ghost nv = names@.map_values(|n: String| n@);
                    let mut found = false;
                    let mut k: usize = 0;
                    while k < names.len() && !found
                        invariant
                            k <= names.len(),
                            nv == names@.map_values(|n: String| n@),
                            wanted@ == list@,
                            found ==> nv.contains(list@),
                            !found ==> forall|j: int| 0 <= j < k ==> nv[j] != list@,
                        decreases names.len() - k + if found { 0int } else { 1int },
                    {
                        let candidate = chars_of(names[k].as_str());
                        if eq_chars(candidate.as_slice(), wanted.as_slice()) {
                            assert(nv[k as int] == list@);
                            found = true;
                        } else {
                            k += 1;
                        }
                    }
                    proof {
                        if !found {
                            assert forall|j: int| 0 <= j < nv.len() implies nv[j] != list@ by {}
                        }
                    }
                    found
                },
            };
            proof {
                assert(selection_view(self.selections@[index as int]) == sels[index as int]);
                assert(sees == sees_list(sels[index as int], list@));
            }
            let ghost m0 = mask;
            if sees {
                mask = mask | PolicyId(index as u8).bit();
            } else {
                assert(m0 | 0u16 == m0) by (bit_vector);
            }
            index += 1;
        }
        proof {
            lemma_default_bit(sels, list@, index as int);
        }
        mask
    }
}

} // verus!
