//! The three kinds of version bump, their tokens and their precedence.

use crate::error::{DecodeError, DecodeErrorView};
use crate::text::same_text;
use core::cmp::Ordering;
use vstd::prelude::*;
use vstd::std_specs::cmp::PartialOrdSpecImpl;

verus! {

/// The kind of version bump that a change asks of a package.
#[derive(Debug, PartialEq, Eq, Copy, Clone, Structural)]
pub enum SemverType {
    Major,
    Minor,
    Patch,
}

impl SemverType {
    /// The lowercase token that stands for the kind in a changeset's
    /// metadata.
    pub open spec fn token(self) -> Seq<char> {
        match self {
            SemverType::Major => "major"@,
            SemverType::Minor => "minor"@,
            SemverType::Patch => "patch"@,
        }
    }

    /// The kind that a token stands for, if it is one of the three.
    pub open spec fn from_token(token: Seq<char>) -> Option<SemverType> {
        if token == "major"@ {
            Some(SemverType::Major)
        } else if token == "minor"@ {
            Some(SemverType::Minor)
        } else if token == "patch"@ {
            Some(SemverType::Patch)
        } else {
            None
        }
    }

    /// The kind's place in the precedence order: the higher, the stronger.
    pub open spec fn rank(self) -> int {
        match self {
            SemverType::Major => 2,
            SemverType::Minor => 1,
            SemverType::Patch => 0,
        }
    }

    /// The three tokens, character by character.
    pub proof fn lemma_tokens()
        ensures
            "major"@ == seq!['m', 'a', 'j', 'o', 'r'],
            "minor"@ == seq!['m', 'i', 'n', 'o', 'r'],
            "patch"@ == seq!['p', 'a', 't', 'c', 'h'],
    {
        reveal_strlit("major");
        reveal_strlit("minor");
        reveal_strlit("patch");
        assert("major"@ =~= seq!['m', 'a', 'j', 'o', 'r']);
        assert("minor"@ =~= seq!['m', 'i', 'n', 'o', 'r']);
        assert("patch"@ =~= seq!['p', 'a', 't', 'c', 'h']);
    }

    /// Each kind's token is read back as that kind, and a token that is read
    /// as a kind is that kind's token: kinds and tokens correspond one to
    /// one.
    pub proof fn lemma_token_round_trip(kind: SemverType)
        ensures
            SemverType::from_token(kind.token()) == Some(kind),
            forall|token: Seq<char>|
                SemverType::from_token(token) == Some(kind) <==> token == kind.token(),
    {
        SemverType::lemma_tokens();
        assert("major"@[1] != "minor"@[1]);
        assert("major"@[0] != "patch"@[0]);
        assert("minor"@[0] != "patch"@[0]);
    }

    /// The kind's token.
    pub fn as_str(&self) -> (token: &'static str)
        ensures
            token@ == self.token(),
    {
        match self {
            SemverType::Major => "major",
            SemverType::Minor => "minor",
            SemverType::Patch => "patch",
        }
    }

    /// The kind's token, as an owned text.
    pub fn to_string(&self) -> (token: String)
        ensures
            token@ == self.token(),
    {
        self.as_str().to_owned()
    }

    /// Reads a token: one of the three tokens gives its kind, any other text
    /// is refused and handed back in the error.
    pub fn parse(token: &str) -> (r: Result<SemverType, DecodeError>)
        ensures
            match r {
                Ok(kind) => SemverType::from_token(token@) == Some(kind),
                Err(e) => SemverType::from_token(token@) is None && e@
                    == DecodeErrorView::UnrecognizedBumpKind(token@),
            },
    {
        if same_text(token, "major") {
            Ok(SemverType::Major)
        } else if same_text(token, "minor") {
            Ok(SemverType::Minor)
        } else if same_text(token, "patch") {
            Ok(SemverType::Patch)
        } else {
            Err(DecodeError::UnrecognizedBumpKind(token.to_owned()))
        }
    }

    /// The kind's place in the precedence order, `Patch` lowest.
    pub fn precedence(&self) -> (r: u8)
        ensures
            r == self.rank(),
    {
        match self {
            SemverType::Major => 2,
            SemverType::Minor => 1,
            SemverType::Patch => 0,
        }
    }

    /// The stronger of two kinds.
    pub fn strongest(self, other: SemverType) -> (r: SemverType)
        ensures
            r == if self.rank() >= other.rank() { self } else { other },
    {
        if self.precedence() >= other.precedence() {
            self
        } else {
            other
        }
    }
}

impl PartialOrd for SemverType {
    /// Orders the kinds by precedence: `Major > Minor > Patch`.
    fn partial_cmp(&self, other: &SemverType) -> (r: Option<Ordering>) {
        let a = self.precedence();
        let b = other.precedence();
        if a < b {
            Some(Ordering::Less)
        } else if a == b {
            Some(Ordering::Equal)
        } else {
            Some(Ordering::Greater)
        }
    }
}

impl PartialOrdSpecImpl for SemverType {
    open spec fn obeys_partial_cmp_spec() -> bool {
        true
    }

    open spec fn partial_cmp_spec(&self, other: &SemverType) -> Option<Ordering> {
        if self.rank() < other.rank() {
            Some(Ordering::Less)
        } else if self.rank() == other.rank() {
            Some(Ordering::Equal)
        } else {
            Some(Ordering::Greater)
        }
    }
}

} // verus!
