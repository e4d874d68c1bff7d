//! Mount namespaces as the supervisor and its workers name them, and the
//! search by which a worker enters the one it was started for.

use vstd::prelude::*;
use crate::text::same_text;

verus! {

/// Names a mount namespace: the supervisor's own, or another by the target of
/// a process's namespace link.
#[derive(Debug, PartialEq, Eq)]
pub enum NamespaceToken {
    /// The namespace the supervisor runs in. A worker started for it is in it
    /// already.
    Own,
    /// The namespace that processes show as this link target.
    Named(String),
}

/// A `NamespaceToken` with its name as a sequence of characters.
pub enum TokenView {
    Own,
    Named(Seq<char>),
}

impl View for NamespaceToken {
    type V = TokenView;

    open spec fn view(&self) -> TokenView {
        match self {
            NamespaceToken::Own => TokenView::Own,
            NamespaceToken::Named(name) => TokenView::Named(name@),
        }
    }
}

/// The argument that stands for the supervisor's own namespace.
pub open spec fn own_arg() -> Seq<char> {
    seq!['-']
}

/// The token that a worker's argument stands for.
pub open spec fn spec_from_arg(arg: Seq<char>) -> TokenView {
    if arg == own_arg() {
        TokenView::Own
    } else {
        TokenView::Named(arg)
    }
}

/// The argument that hands a token to a worker.
pub open spec fn spec_to_arg(token: TokenView) -> Seq<char> {
    match token {
        TokenView::Own => own_arg(),
        TokenView::Named(name) => name,
    }
}

/// The token under which a scan files the namespace with link target `link`,
/// where `own` is the link target of the scanning process itself, as far as
/// the scan has seen it.
pub open spec fn spec_token_for(own: Option<Seq<char>>, link: Seq<char>) -> TokenView {
    if own == Some(link) {
        TokenView::Own
    } else {
        TokenView::Named(link)
    }
}

impl Clone for NamespaceToken {
    fn clone(&self) -> (copy: NamespaceToken)
        ensures
            copy@ == self@,
    {
        match self {
            NamespaceToken::Own => NamespaceToken::Own,
            NamespaceToken::Named(name) => NamespaceToken::Named(name.clone()),
        }
    }
}

impl NamespaceToken {
    /// Reads the argument a worker was started with.
    pub fn from_arg(arg: &str) -> (token: NamespaceToken)
        ensures
            token@ == spec_from_arg(arg@),
    {
        proof {
            reveal_strlit("-");
            assert("-"@ =~= own_arg());
        }
        if same_text(arg, "-") {
            NamespaceToken::Own
        } else {
            NamespaceToken::Named(arg.to_owned())
        }
    }

    /// The argument to start a worker for this namespace with.
    pub fn to_arg(&self) -> (arg: String)
        ensures
            arg@ == spec_to_arg(self@),
    {
        match self {
            NamespaceToken::Own => {
                proof {
                    reveal_strlit("-");
                }
                let arg = "-".to_owned();
                assert(arg@ =~= own_arg());
                arg
            },
            NamespaceToken::Named(name) => name.clone(),
        }
    }

    /// The token for the namespace with link target `link`, as seen by a
    /// process whose own link target is `own`.
    pub fn for_link(own: Option<&str>, link: &str) -> (token: NamespaceToken)
        ensures
            token@ == spec_token_for(
                match own {
                    Some(o) => Some(o@),
                    None => None,
                },
                link@,
            ),
    {
        match own {
            Some(o) => {
                if same_text(o, link) {
                    NamespaceToken::Own
                } else {
                    NamespaceToken::Named(link.to_owned())
                }
            },
            None => NamespaceToken::Named(link.to_owned()),
        }
    }

    /// Whether both tokens name the same namespace.
    pub fn same(&self, other: &NamespaceToken) -> (r: bool)
        ensures
            r == (self@ == other@),
    {
        match (self, other) {
            (NamespaceToken::Own, NamespaceToken::Own) => true,
            (NamespaceToken::Named(a), NamespaceToken::Named(b)) => *a == *b,
            _ => false,
        }
    }

    /// Whether a worker started for this namespace has to enter it first.
    pub fn needs_join(&self) -> (r: bool)
        ensures
            r == (self@ is Named),
    {
        match self {
            NamespaceToken::Own => false,
            NamespaceToken::Named(_) => true,
        }
    }

    /// Whether a process with namespace link target `link` lives in the
    /// namespace that this token names. Of the supervisor's own namespace no
    /// link target is known, so nothing matches it.
    pub fn names_link(&self, link: &str) -> (r: bool)
        ensures
            r == (self@ == TokenView::Named(link@)),
    {
        match self {
            NamespaceToken::Own => false,
            NamespaceToken::Named(name) => same_text(name.as_str(), link),
        }
    }
}

/// Handing a token to a worker and reading it back gives the same token,
/// unless it is a namespace whose link target is the very text that stands
/// for the supervisor's own.
pub proof fn lemma_arg_round_trip(token: TokenView)
    requires
        token != TokenView::Named(own_arg()),
    ensures
        spec_from_arg(spec_to_arg(token)) == token,
{
}

/// Whatever link target the supervisor's own namespace has, the namespace is
/// filed under `Own`, and no other namespace is.
pub proof fn lemma_own_namespace_is_own(own: Seq<char>, link: Seq<char>)
    ensures
        spec_token_for(Some(own), own) == TokenView::Own,
        link != own ==> spec_token_for(Some(own), link) == TokenView::Named(link),
{
}

/// A worker's search for a process through which to enter its namespace.
pub struct JoinSearch {
    token: NamespaceToken,
    entered: bool,
}

impl JoinSearch {
    /// The namespace that the worker was started for.
    pub closed spec fn token(&self) -> TokenView {
        self.token@
    }

    /// Whether an attempt to enter has succeeded.
    pub closed spec fn entered(&self) -> bool {
        self.entered
    }

    /// Whether the worker is where it belongs: it was started for the
    /// supervisor's own namespace, or it has entered the one it was started
    /// for.
    pub open spec fn settled(&self) -> bool {
        self.token() is Own || self.entered()
    }

    /// The search of a worker started for `token`, before it has looked at
    /// any process.
    pub fn new(token: NamespaceToken) -> (search: JoinSearch)
        ensures
            search.token() == token@,
            !search.entered(),
    {
        JoinSearch { token, entered: false }
    }

    /// Whether to try to enter through a process whose namespace link target
    /// is `link`: only while the search is on, and only if the process lives in
    /// the wanted namespace.
    pub fn wants(&self, link: &str) -> (attempt: bool)
        ensures
            attempt == (!self.settled() && self.token() == TokenView::Named(link@)),
    {
        !self.entered && self.token.names_link(link)
    }

    /// Takes note of how an attempt to enter ended. A failed attempt leaves
    /// the search as it was, so that the next candidate is tried.
    pub fn record(&mut self, succeeded: bool)
        ensures
            final(self).token() == old(self).token(),
            final(self).entered() == (old(self).entered() || (succeeded && old(self).token()
                is Named)),
    {
        if succeeded && self.token.needs_join() {
            self.entered = true;
        }
    }

    /// Whether the worker may go on to its work. While this is false there
    /// are candidates to look for; if it is still false when none is left,
    /// the worker has to give up.
    pub fn is_settled(&self) -> (r: bool)
        ensures
            r == self.settled(),
    {
        self.entered || !self.token.needs_join()
    }
}

/// A worker started with the argument that stands for the supervisor's own
/// namespace is settled from the start, and tries to enter through no
/// process, whatever its namespace link shows.
pub proof fn lemma_own_worker_never_joins(search: JoinSearch, link: Seq<char>)
    requires
        search.token() == spec_from_arg(own_arg()),
    ensures
        search.settled(),
        !(!search.settled() && search.token() == TokenView::Named(link)),
{
}

} // verus!
