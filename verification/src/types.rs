use vstd::prelude::*;

verus! {

/// A category of personally identifiable information that pattern matching
/// together with a checksum can recognise reliably.
#[derive(Debug, Clone, Copy, PartialEq, Eq, Hash, Structural)]
pub enum PiiType {
    Email,
    PhoneNumber,
    /// US Social Security Number.
    Ssn,
    CreditCard,
    IpAddressV4,
    IpAddressV6,
}

impl PiiType {
    /// The regulation that makes this category sensitive, as a sequence of
    /// characters.
    pub open spec fn spec_regulatory_basis(self) -> Seq<char> {
        match self {
            PiiType::Email => "GDPR Art.4(1), CCPA §1798.140(o)"@,
            PiiType::PhoneNumber => "GDPR Recital 30 + national telecom laws"@,
            PiiType::Ssn => "NIST SP 800-122 §2.1"@,
            PiiType::CreditCard => "PCI-DSS v4.0 + GDPR financial data"@,
            PiiType::IpAddressV4 | PiiType::IpAddressV6 => "GDPR Recital 30"@,
        }
    }

    /// The placeholder that stands for a value of this category unless a
    /// policy overrides it.
    pub open spec fn spec_placeholder(self) -> Seq<char> {
        match self {
            PiiType::Email => "[REDACTED_EMAIL]"@,
            PiiType::PhoneNumber => "[REDACTED_PHONE]"@,
            PiiType::Ssn => "[REDACTED_SSN]"@,
            PiiType::CreditCard => "[REDACTED_CC]"@,
            PiiType::IpAddressV4 => "[REDACTED_IPv4]"@,
            PiiType::IpAddressV6 => "[REDACTED_IPv6]"@,
        }
    }

    /// Whether a pattern match of this category can be confirmed by a
    /// checksum.
    pub open spec fn spec_requires_validation(self) -> bool {
        self is CreditCard || self is Ssn
    }

    /// Regulatory basis of the category, for audit records.
    pub fn regulatory_basis(&self) -> (basis: &'static str)
        ensures
            basis@ == self.spec_regulatory_basis(),
    {
        match self {
            PiiType::Email => "GDPR Art.4(1), CCPA §1798.140(o)",
            PiiType::PhoneNumber => "GDPR Recital 30 + national telecom laws",
            PiiType::Ssn => "NIST SP 800-122 §2.1",
            PiiType::CreditCard => "PCI-DSS v4.0 + GDPR financial data",
            PiiType::IpAddressV4 | PiiType::IpAddressV6 => "GDPR Recital 30",
        }
    }

    /// Default placeholder of the category.
    pub fn placeholder(&self) -> (text: &'static str)
        ensures
            text@ == self.spec_placeholder(),
    {
        match self {
            PiiType::Email => "[REDACTED_EMAIL]",
            PiiType::PhoneNumber => "[REDACTED_PHONE]",
            PiiType::Ssn => "[REDACTED_SSN]",
            PiiType::CreditCard => "[REDACTED_CC]",
            PiiType::IpAddressV4 => "[REDACTED_IPv4]",
            PiiType::IpAddressV6 => "[REDACTED_IPv6]",
        }
    }

    /// True for the categories whose matches carry a checksum, such as the
    /// Luhn digit of a card number.
    pub fn requires_validation(&self) -> (required: bool)
        ensures
            required == self.spec_requires_validation(),
    {
        match self {
            PiiType::CreditCard | PiiType::Ssn => true,
            _ => false,
        }
    }
}

/// No two categories share a default placeholder, so a placeholder found in
/// redacted output names its category.
pub proof fn lemma_placeholders_distinct(a: PiiType, b: PiiType)
    requires
        a != b,
    ensures
        a.spec_placeholder() != b.spec_placeholder(),
{
    reveal_strlit("[REDACTED_EMAIL]");
    reveal_strlit("[REDACTED_PHONE]");
    reveal_strlit("[REDACTED_SSN]");
    reveal_strlit("[REDACTED_CC]");
    reveal_strlit("[REDACTED_IPv4]");
    reveal_strlit("[REDACTED_IPv6]");
    let pa = a.spec_placeholder();
    let pb = b.spec_placeholder();
    if pa.len() == pb.len() {
        if pa.len() == 16 {
            assert(pa[10] != pb[10]);
        } else {
            assert(pa[13] != pb[13]);
        }
    }
}

} // verus!
