//! Templates: a token sequence of fixed length with the number of lines it
//! has absorbed.

use crate::similarity::{GroupSimilarity, Ratio};
use crate::token::{token_text, tokens_view, Token, TokenV};
use vstd::prelude::*;
use vstd::string::StringExecFns;

verus! {

/// The mathematical value of a [`LogCluster`].
pub ghost struct ClusterV {
    /// The template, a wildcard at every position that has varied.
    pub template: Seq<TokenV>,
    /// The number of lines the template stands for.
    pub matches: nat,
}

/// Whether a template position counts towards a score against the token
/// of a line at that position: always if the two are the same token, and
/// for the approximate score also if the template holds the wildcard.
pub open spec fn position_hit(pattern: TokenV, token: TokenV, approximate: bool) -> bool {
    token == pattern || (approximate && pattern is WildCard)
}

/// The number of positions of `template` that count towards a score
/// against `input`.
pub open spec fn hits(template: Seq<TokenV>, input: Seq<TokenV>, approximate: bool) -> nat
    decreases template.len(),
{
    if template.len() == 0 {
        0
    } else {
        hits(template.drop_last(), input, approximate) + if position_hit(
            template.last(),
            input[template.len() - 1],
            approximate,
        ) {
            1nat
        } else {
            0nat
        }
    }
}

/// The two scores of `template` against `input`, each as the number of
/// positions that count over the length of the template.
pub open spec fn similarity_of(template: Seq<TokenV>, input: Seq<TokenV>) -> GroupSimilarity {
    GroupSimilarity {
        approximate_similarity: Ratio {
            numerator: hits(template, input, true) as u64,
            denominator: template.len() as u64,
        },
        exact_similarity: Ratio {
            numerator: hits(template, input, false) as u64,
            denominator: template.len() as u64,
        },
    }
}

/// `template` generalised against `input`: every literal that differs from
/// the line's token at its position becomes the wildcard, all else stays.
pub open spec fn merged_template(template: Seq<TokenV>, input: Seq<TokenV>) -> Seq<TokenV> {
    Seq::new(
        template.len(),
        |i: int|
            if template[i] is WildCard || template[i] == input[i] {
                template[i]
            } else {
                TokenV::WildCard
            },
    )
}

/// Whether a template stands for a line: at every position it holds the
/// line's token or the wildcard.
pub open spec fn covers(template: Seq<TokenV>, input: Seq<TokenV>) -> bool {
    &&& template.len() == input.len()
    &&& forall|i: int|
        0 <= i < template.len() ==> (#[trigger] template[i]) == input[i] || template[i] is WildCard
}

impl ClusterV {
    /// The cluster that a line founds: the line itself, counted once.
    pub open spec fn founded_by(input: Seq<TokenV>) -> ClusterV {
        ClusterV { template: input, matches: 1 }
    }

    /// This cluster after it has absorbed `input`.
    pub open spec fn absorb(self, input: Seq<TokenV>) -> ClusterV {
        ClusterV { template: merged_template(self.template, input), matches: self.matches + 1 }
    }
}

/// The texts of the tokens of `template`, a single space between each two.
pub open spec fn joined_text(template: Seq<TokenV>) -> Seq<char>
    decreases template.len(),
{
    if template.len() == 0 {
        Seq::empty()
    } else if template.len() == 1 {
        token_text(template[0])
    } else {
        joined_text(template.drop_last()) + seq![' '] + token_text(template.last())
    }
}

/// The character of a single decimal digit.
pub open spec fn digit_char(digit: nat) -> char {
    if digit == 0 {
        '0'
    } else if digit == 1 {
        '1'
    } else if digit == 2 {
        '2'
    } else if digit == 3 {
        '3'
    } else if digit == 4 {
        '4'
    } else if digit == 5 {
        '5'
    } else if digit == 6 {
        '6'
    } else if digit == 7 {
        '7'
    } else if digit == 8 {
        '8'
    } else {
        '9'
    }
}

/// The decimal digits of `n`, most significant first, without leading zeros.
pub open spec fn decimal_text(n: nat) -> Seq<char>
    decreases n,
{
    if n < 10 {
        seq![digit_char(n)]
    } else {
        decimal_text(n / 10).push(digit_char(n % 10))
    }
}

/// The text a cluster is rendered as: its tokens joined by single spaces,
/// then `, count [`, the count, `]` and a trailing space.
pub open spec fn cluster_text(cluster: ClusterV) -> Seq<char> {
    joined_text(cluster.template) + seq![',', ' ', 'c', 'o', 'u', 'n', 't', ' ', '[']
        + decimal_text(cluster.matches) + seq![']', ' ']
}

/// The decimal text of `n`, as `u64`'s `to_string` of the standard library
/// gives it: the digits of `n`, most significant first, no sign, no
/// leading zeros.
#[verifier::external_body]
pub(crate) fn decimal_string(n: u64) -> (text: String)
    ensures
        text@ == decimal_text(n as nat),
{
    n.to_string()
}

/// A template with the number of lines it has absorbed.
#[derive(Debug)]
pub struct LogCluster {
    log_tokens: Vec<Token>,
    num_matched: u64,
}

impl View for LogCluster {
    type V = ClusterV;

    /// The value of the cluster: its template and its count.
    closed spec fn view(&self) -> ClusterV {
        ClusterV { template: tokens_view(self.log_tokens@), matches: self.num_matched as nat }
    }
}

impl LogCluster {
    /// A cluster stands for the line that founded it at least.
    #[verifier::type_invariant]
    closed spec fn counts_from_one(&self) -> bool {
        self.num_matched >= 1
    }

    /// The cluster founded by one line.
    pub fn new(log_tokens: Vec<Token>) -> (cluster: LogCluster)
        ensures
            cluster@ == ClusterV::founded_by(tokens_view(log_tokens@)),
    {
        LogCluster { log_tokens, num_matched: 1 }
    }

    /// The template.
    pub fn log_tokens(&self) -> (tokens: &Vec<Token>)
        ensures
            tokens_view(tokens@) == self@.template,
    {
        &self.log_tokens
    }

    /// The number of lines this cluster stands for.
    pub fn num_matched(&self) -> (count: u64)
        ensures
            count == self@.matches,
            count >= 1,
    {
        proof {
            use_type_invariant(self);
        }
        self.num_matched
    }

    /// The number of positions of the template.
    pub fn len(&self) -> (length: usize)
        ensures
            length == self@.template.len(),
    {
        self.log_tokens.len()
    }

    /// The two scores of the template against `log`.
    pub fn similarity(&self, log: &[Token]) -> (scores: GroupSimilarity)
        requires
            log@.len() == self@.template.len(),
        ensures
            scores == similarity_of(self@.template, tokens_view(log@)),
    {
        let ghost template = tokens_view(self.log_tokens@);
        let ghost input = tokens_view(log@);
        let len = self.log_tokens.len();
        let mut approximate: usize = 0;
        let mut exact: usize = 0;
        let mut i: usize = 0;
        while i < len
            invariant
                i <= len,
                len == self.log_tokens.len(),
                len == log.len(),
                template == tokens_view(self.log_tokens@),
                input == tokens_view(log@),
                exact == hits(template.take(i as int), input, false),
                approximate == hits(template.take(i as int), input, true),
                exact <= approximate <= i,
            decreases len - i,
        {
            let pattern = &self.log_tokens[i];
            let token = &log[i];
            proof {
                assert(template.take(i + 1).drop_last() =~= template.take(i as int));
            }
            if token == pattern {
                approximate += 1;
                exact += 1;
            } else if pattern.is_wildcard() {
                approximate += 1;
            }
            i += 1;
        }
        assert(template.take(len as int) =~= template);
        GroupSimilarity {
            approximate_similarity: Ratio::new(approximate as u64, len as u64),
            exact_similarity: Ratio::new(exact as u64, len as u64),
        }
    }

    /// Absorbs one more line: every literal of the template that differs
    /// from the line's token at its position becomes the wildcard, and the
    /// count grows by one.
    pub fn add_log(&mut self, log: &[Token])
        requires
            log@.len() == old(self)@.template.len(),
            old(self)@.matches < u64::MAX,
        ensures
            final(self)@ == old(self)@.absorb(tokens_view(log@)),
            final(self)@.matches == old(self)@.matches + 1,
            covers(final(self)@.template, tokens_view(log@)),
            forall|i: int|
                0 <= i < old(self)@.template.len() && (#[trigger] old(self)@.template[i])
                    is WildCard ==> final(self)@.template[i] is WildCard,
    {
        let ghost template = tokens_view(self.log_tokens@);
        let ghost input = tokens_view(log@);
        proof {
            use_type_invariant(&*self);
        }
        let len = log.len();
        let mut i: usize = 0;
        while i < len
            invariant
                i <= len,
                len == log.len(),
                self.log_tokens.len() == len,
                self.num_matched == old(self).num_matched,
                self.num_matched >= 1,
                template.len() == len,
                input == tokens_view(log@),
                forall|j: int|
                    0 <= j < i ==> (#[trigger] self.log_tokens@[j])@ == merged_template(
                        template,
                        input,
                    )[j],
                forall|j: int| i <= j < len ==> (#[trigger] self.log_tokens@[j])@ == template[j],
            decreases len - i,
        {
            if !self.log_tokens[i].is_wildcard() {
                if self.log_tokens[i] != log[i] {
                    self.log_tokens[i] = Token::WildCard;
                }
            }
            i += 1;
        }
        self.num_matched += 1;
        assert(tokens_view(self.log_tokens@) =~= merged_template(template, input));
    }

    /// The text of this cluster: its tokens joined by single spaces,
    /// followed by `, count [N] ` for its count `N`.
    pub fn to_string(&self) -> (text: String)
        ensures
            text@ == cluster_text(self@),
    {
        let ghost template = tokens_view(self.log_tokens@);
        let mut text = String::new();
        let mut i: usize = 0;
        while i < self.log_tokens.len()
            invariant
                i <= self.log_tokens.len(),
                template == tokens_view(self.log_tokens@),
                text@ == joined_text(template.take(i as int)),
            decreases self.log_tokens.len() - i,
        {
            proof {
                assert(template.take(i + 1).drop_last() =~= template.take(i as int));
            }
            if i > 0 {
                proof {
                    reveal_strlit(" ");
                }
                text.append(" ");
            }
            let piece = self.log_tokens[i].to_string();
            text.append(piece.as_str());
            i += 1;
        }
        assert(template.take(self.log_tokens.len() as int) =~= template);
        proof {
            reveal_strlit(", count [");
            reveal_strlit("] ");
        }
        text.append(", count [");
        let count = decimal_string(self.num_matched);
        text.append(count.as_str());
        text.append("] ");
        text
    }
}

} // verus!
