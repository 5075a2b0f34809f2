use crate::search::{contains, contains_term};
use crate::text::to_chars;
use crate::types::PiiType;
use vstd::prelude::*;

verus! {

/// What a policy lays down.
#[verifier::ext_equal]
pub ghost struct PolicyView {
    /// The categories that are to be looked for.
    pub enabled: Set<PiiType>,
    /// The placeholders that replace a category's default.
    pub placeholders: Map<PiiType, Seq<char>>,
    /// Terms that are never redacted.
    pub allowlist: Seq<Seq<char>>,
    /// Terms that are always redacted.
    pub blocklist: Seq<Seq<char>>,
    /// Whether a match must pass its checksum before it counts.
    pub strict_validation: bool,
}

/// The policy that holds where nothing was configured: every category
/// enabled, no placeholder of its own, no terms, checksums required.
pub open spec fn default_view() -> PolicyView {
    PolicyView {
        enabled: Set::full(),
        placeholders: Map::empty(),
        allowlist: Seq::empty(),
        blocklist: Seq::empty(),
        strict_validation: true,
    }
}

/// The terms of a list as character sequences.
pub open spec fn terms_view(terms: Seq<String>) -> Seq<Seq<char>> {
    terms.map_values(|term: String| term@)
}

/// The terms of a list of string slices as character sequences.
pub open spec fn slices_view(terms: Seq<&str>) -> Seq<Seq<char>> {
    terms.map_values(|term: &str| term@)
}

/// Some term of the list stands in `text`.
pub open spec fn some_term_in(terms: Seq<Seq<char>>, text: Seq<char>) -> bool {
    exists|i: int| 0 <= i < terms.len() && contains_term(text, #[trigger] terms[i])
}

/// One switch per category.
#[derive(Debug, Clone, Copy)]
struct Switches {
    email: bool,
    phone_number: bool,
    ssn: bool,
    credit_card: bool,
    ip_address_v4: bool,
    ip_address_v6: bool,
}

impl Switches {
    spec fn on(self, pii_type: PiiType) -> bool {
        match pii_type {
            PiiType::Email => self.email,
            PiiType::PhoneNumber => self.phone_number,
            PiiType::Ssn => self.ssn,
            PiiType::CreditCard => self.credit_card,
            PiiType::IpAddressV4 => self.ip_address_v4,
            PiiType::IpAddressV6 => self.ip_address_v6,
        }
    }

    fn get(&self, pii_type: PiiType) -> (on: bool)
        ensures
            on == self.on(pii_type),
    {
        match pii_type {
            PiiType::Email => self.email,
            PiiType::PhoneNumber => self.phone_number,
            PiiType::Ssn => self.ssn,
            PiiType::CreditCard => self.credit_card,
            PiiType::IpAddressV4 => self.ip_address_v4,
            PiiType::IpAddressV6 => self.ip_address_v6,
        }
    }

    fn set(&mut self, pii_type: PiiType, value: bool)
        ensures
            forall|other: PiiType|
                #[trigger] final(self).on(other) == if other == pii_type {
                    value
                } else {
                    old(self).on(other)
                },
    {
        match pii_type {
            PiiType::Email => self.email = value,
            PiiType::PhoneNumber => self.phone_number = value,
            PiiType::Ssn => self.ssn = value,
            PiiType::CreditCard => self.credit_card = value,
            PiiType::IpAddressV4 => self.ip_address_v4 = value,
            PiiType::IpAddressV6 => self.ip_address_v6 = value,
        }
    }
}

/// One optional placeholder per category.
#[derive(Debug, Clone)]
struct Overrides {
    email: Option<String>,
    phone_number: Option<String>,
    ssn: Option<String>,
    credit_card: Option<String>,
    ip_address_v4: Option<String>,
    ip_address_v6: Option<String>,
}

impl Overrides {
    spec fn of(self, pii_type: PiiType) -> Option<String> {
        match pii_type {
            PiiType::Email => self.email,
            PiiType::PhoneNumber => self.phone_number,
            PiiType::Ssn => self.ssn,
            PiiType::CreditCard => self.credit_card,
            PiiType::IpAddressV4 => self.ip_address_v4,
            PiiType::IpAddressV6 => self.ip_address_v6,
        }
    }

    spec fn text_of(self, pii_type: PiiType) -> Seq<char> {
        match self.of(pii_type) {
            Some(text) => text@,
            None => Seq::empty(),
        }
    }

    fn get(&self, pii_type: PiiType) -> (found: &Option<String>)
        ensures
            *found == self.of(pii_type),
    {
        match pii_type {
            PiiType::Email => &self.email,
            PiiType::PhoneNumber => &self.phone_number,
            PiiType::Ssn => &self.ssn,
            PiiType::CreditCard => &self.credit_card,
            PiiType::IpAddressV4 => &self.ip_address_v4,
            PiiType::IpAddressV6 => &self.ip_address_v6,
        }
    }

    fn set(&mut self, pii_type: PiiType, text: String)
        ensures
            forall|other: PiiType|
                #[trigger] final(self).of(other) == if other == pii_type {
                    Some(text)
                } else {
                    old(self).of(other)
                },
    {
        match pii_type {
            PiiType::Email => self.email = Some(text),
            PiiType::PhoneNumber => self.phone_number = Some(text),
            PiiType::Ssn => self.ssn = Some(text),
            PiiType::CreditCard => self.credit_card = Some(text),
            PiiType::IpAddressV4 => self.ip_address_v4 = Some(text),
            PiiType::IpAddressV6 => self.ip_address_v6 = Some(text),
        }
    }
}

/// What to redact and how: the categories that count, the placeholders, the
/// terms that are exempt and the terms that are forced.
#[derive(Debug, Clone)]
pub struct RedactionPolicy {
    enabled: Switches,
    overrides: Overrides,
    allowlist: Vec<String>,
    blocklist: Vec<String>,
    strict_validation: bool,
}

impl View for RedactionPolicy {
    type V = PolicyView;

    closed spec fn view(&self) -> PolicyView {
        PolicyView {
            enabled: Set::new(|pii_type: PiiType| self.enabled.on(pii_type)),
            placeholders: Map::new(
                |pii_type: PiiType| self.overrides.of(pii_type) is Some,
                |pii_type: PiiType| self.overrides.text_of(pii_type),
            ),
            allowlist: terms_view(self.allowlist@),
            blocklist: terms_view(self.blocklist@),
            strict_validation: self.strict_validation,
        }
    }
}

impl Default for RedactionPolicy {
    /// Every category enabled and checksums required: what is not relaxed on
    /// purpose stays strict.
    fn default() -> (policy: Self)
        ensures
            policy@ == default_view(),
    {
        let policy = RedactionPolicy {
            enabled: Switches {
                email: true,
                phone_number: true,
                ssn: true,
                credit_card: true,
                ip_address_v4: true,
                ip_address_v6: true,
            },
            overrides: Overrides {
                email: None,
                phone_number: None,
                ssn: None,
                credit_card: None,
                ip_address_v4: None,
                ip_address_v6: None,
            },
            allowlist: Vec::new(),
            blocklist: Vec::new(),
            strict_validation: true,
        };
        proof {
            assert(policy@.enabled =~= Set::full());
            assert(policy@.placeholders =~= Map::empty());
            assert(policy@.allowlist =~= Seq::empty());
            assert(policy@.blocklist =~= Seq::empty());
        }
        policy
    }
}

/// Whether some term of `terms` stands in `text`.
fn any_term_in(terms: &Vec<String>, text: &str) -> (found: bool)
    ensures
        found == some_term_in(terms_view(terms@), text@),
{
    let chars = to_chars(text);
    let mut i: usize = 0;
    while i < terms.len()
        invariant
            i <= terms.len(),
            chars@ == text@,
            forall|k: int| 0 <= k < i ==> !contains_term(text@, #[trigger] terms_view(terms@)[k]),
        decreases terms.len() - i,
    {
        let term = to_chars(terms[i].as_str());
        if contains(&chars, &term) {
            proof {
                assert(terms_view(terms@)[i as int] == term@);
            }
            return true;
        }
        proof {
            assert(terms_view(terms@)[i as int] == term@);
        }
        i = i + 1;
    }
    false
}

/// The terms as owned strings, in the order given.
fn own_terms(terms: Vec<&str>) -> (owned: Vec<String>)
    ensures
        terms_view(owned@) == slices_view(terms@),
{
    let mut owned: Vec<String> = Vec::new();
    let mut i: usize = 0;
    while i < terms.len()
        invariant
            i <= terms.len(),
            owned@.len() == i,
            forall|k: int| 0 <= k < i ==> (#[trigger] owned@[k])@ == terms@[k]@,
        decreases terms.len() - i,
    {
        let term = terms[i].to_owned();
        owned.push(term);
        i = i + 1;
    }
    proof {
        assert(terms_view(owned@) =~= slices_view(terms@));
    }
    owned
}

impl RedactionPolicy {
    /// A builder that starts from the default policy.
    pub fn builder() -> (builder: PolicyBuilder)
        ensures
            builder@ == default_view(),
    {
        PolicyBuilder::default()
    }

    /// Whether the category is to be looked for.
    pub fn is_enabled(&self, pii_type: PiiType) -> (enabled: bool)
        ensures
            enabled == self@.enabled.contains(pii_type),
    {
        self.enabled.get(pii_type)
    }

    /// The placeholder of the category: the one configured for it, and the
    /// category's default where none was.
    pub fn placeholder_for(&self, pii_type: PiiType) -> (placeholder: &str)
        ensures
            placeholder@ == if self@.placeholders.contains_key(pii_type) {
                self@.placeholders[pii_type]
            } else {
                pii_type.spec_placeholder()
            },
    {
        match self.overrides.get(pii_type) {
            Some(text) => text.as_str(),
            None => pii_type.placeholder(),
        }
    }

    /// Whether a term of the allowlist stands in `text`.
    pub fn is_allowed(&self, text: &str) -> (allowed: bool)
        ensures
            allowed == some_term_in(self@.allowlist, text@),
    {
        any_term_in(&self.allowlist, text)
    }

    /// Whether a term of the blocklist stands in `text`.
    pub fn is_blocked(&self, text: &str) -> (blocked: bool)
        ensures
            blocked == some_term_in(self@.blocklist, text@),
    {
        any_term_in(&self.blocklist, text)
    }

    /// Whether a match must pass its checksum before it is redacted.
    pub fn requires_validation(&self) -> (required: bool)
        ensures
            required == self@.strict_validation,
    {
        self.strict_validation
    }

    /// The terms that are never redacted, in the order configured.
    pub fn allowlist_terms(&self) -> (terms: &Vec<String>)
        ensures
            terms_view(terms@) == self@.allowlist,
    {
        &self.allowlist
    }

    /// The terms that are always redacted, in the order configured.
    pub fn blocklist_terms(&self) -> (terms: &Vec<String>)
        ensures
            terms_view(terms@) == self@.blocklist,
    {
        &self.blocklist
    }

    /// Identifiers and online identifiers; the US social security number is
    /// left out.
    pub fn gdpr() -> (policy: Self)
        ensures
            policy@ == (PolicyView {
                enabled: Set::<PiiType>::full().remove(PiiType::Ssn),
                ..default_view()
            }),
    {
        let policy = PolicyBuilder::default().enable(PiiType::Email).enable(
            PiiType::PhoneNumber,
        ).enable(PiiType::IpAddressV4).enable(PiiType::IpAddressV6).disable(PiiType::Ssn).build();
        proof {
            assert(policy@.enabled =~= Set::<PiiType>::full().remove(PiiType::Ssn));
        }
        policy
    }

    /// US health identifiers, with the usual names of institutions exempt.
    pub fn hipaa() -> (policy: Self)
        ensures
            policy@ == (PolicyView {
                allowlist: seq!["hospital"@, "clinic"@, "medical center"@],
                ..default_view()
            }),
    {
        let policy = PolicyBuilder::default().enable(PiiType::Ssn).enable(
            PiiType::PhoneNumber,
        ).enable(PiiType::IpAddressV4).with_allowlist(
            vec!["hospital", "clinic", "medical center"],
        ).build();
        proof {
            assert(policy@.enabled =~= Set::<PiiType>::full());
            assert(policy@.allowlist =~= seq!["hospital"@, "clinic"@, "medical center"@]);
        }
        policy
    }

    /// Card numbers, which must pass the Luhn check.
    pub fn pci_dss() -> (policy: Self)
        ensures
            policy@ == default_view(),
    {
        let policy = PolicyBuilder::default().enable(PiiType::CreditCard).strict_validation(
            true,
        ).build();
        proof {
            assert(policy@.enabled =~= Set::<PiiType>::full());
        }
        policy
    }
}

/// Assembles a policy step by step, starting from the default.
pub struct PolicyBuilder {
    policy: RedactionPolicy,
}

impl View for PolicyBuilder {
    type V = PolicyView;

    closed spec fn view(&self) -> PolicyView {
        self.policy@
    }
}

impl Default for PolicyBuilder {
    fn default() -> (builder: Self)
        ensures
            builder@ == default_view(),
    {
        PolicyBuilder { policy: RedactionPolicy::default() }
    }
}

impl PolicyBuilder {
    /// Adds the category to those that are looked for.
    pub fn enable(self, pii_type: PiiType) -> (builder: Self)
        ensures
            builder@ == (PolicyView { enabled: self@.enabled.insert(pii_type), ..self@ }),
    {
        let mut builder = self;
        builder.policy.enabled.set(pii_type, true);
        proof {
            assert(builder@.enabled =~= self@.enabled.insert(pii_type));
        }
        builder
    }

    /// Takes the category out of those that are looked for.
    pub fn disable(self, pii_type: PiiType) -> (builder: Self)
        ensures
            builder@ == (PolicyView { enabled: self@.enabled.remove(pii_type), ..self@ }),
    {
        let mut builder = self;
        builder.policy.enabled.set(pii_type, false);
        proof {
            assert(builder@.enabled =~= self@.enabled.remove(pii_type));
        }
        builder
    }

    /// Gives the category a placeholder of its own.
    pub fn with_placeholder(self, pii_type: PiiType, placeholder: &str) -> (builder: Self)
        ensures
            builder@ == (PolicyView {
                placeholders: self@.placeholders.insert(pii_type, placeholder@),
                ..self@
            }),
    {
        let mut builder = self;
        builder.policy.overrides.set(pii_type, placeholder.to_owned());
        proof {
            assert(builder@.placeholders =~= self@.placeholders.insert(pii_type, placeholder@));
        }
        builder
    }

    /// Replaces the allowlist.
    pub fn with_allowlist(self, terms: Vec<&str>) -> (builder: Self)
        ensures
            builder@ == (PolicyView {
                allowlist: slices_view(terms@),
                ..self@
            }),
    {
        let mut builder = self;
        builder.policy.allowlist = own_terms(terms);
        builder
    }

    /// Replaces the blocklist.
    pub fn with_blocklist(self, terms: Vec<&str>) -> (builder: Self)
        ensures
            builder@ == (PolicyView {
                blocklist: slices_view(terms@),
                ..self@
            }),
    {
        let mut builder = self;
        builder.policy.blocklist = own_terms(terms);
        builder
    }

    /// Says whether a match must pass its checksum.
    pub fn strict_validation(self, enabled: bool) -> (builder: Self)
        ensures
            builder@ == (PolicyView { strict_validation: enabled, ..self@ }),
    {
        let mut builder = self;
        builder.policy.strict_validation = enabled;
        builder
    }

    /// The policy as configured.
    pub fn build(self) -> (policy: RedactionPolicy)
        ensures
            policy@ == self@,
    {
        self.policy
    }
}

} // verus!
