//! Providers of embeddings: their names, models and vocabularies.

use vstd::prelude::*;

use crate::order::{
    law_order_is_unique, lemma_ordered_is_complete, order_by, ordered, precedes, Direction,
};
use crate::tally::{
    counted, law_counts_are_occurrences, lemma_counted, lemma_place, lemma_tally, occurrences, place,
    tally,
};
use crate::text::{
    copy_str, lowercase, push_str, same_text, split_words, texts, to_lower, words,
};

verus! {

/// Embedding models of OpenAI.
#[derive(Debug, Clone, Copy, PartialEq, Eq, Structural)]
pub enum OpenAIModel {
    /// text-embedding-3-small, with 1536 dimensions.
    TextEmbedding3Small,
    /// text-embedding-3-large, with 3072 dimensions.
    TextEmbedding3Large,
    /// text-embedding-ada-002, with 1536 dimensions.
    Ada002,
}

/// The model with a name in lower case.
pub open spec fn model_named(name: Seq<char>) -> Option<OpenAIModel> {
    if name == "text-embedding-3-small"@ || name == "3-small"@ || name == "small"@ {
        Some(OpenAIModel::TextEmbedding3Small)
    } else if name == "text-embedding-3-large"@ || name == "3-large"@ || name == "large"@ {
        Some(OpenAIModel::TextEmbedding3Large)
    } else if name == "text-embedding-ada-002"@ || name == "ada-002"@ || name == "ada"@ {
        Some(OpenAIModel::Ada002)
    } else {
        None
    }
}

/// A failure to choose a provider of embeddings.
#[derive(Debug)]
pub enum EmbeddingError {
    /// There is no model with this name.
    UnknownModel(String),
    /// The small model needs a key.
    KeyNeeded,
    /// The large model needs a key.
    KeyNeededForLarge,
    /// There is no provider with this name.
    UnknownProvider(String),
}

impl EmbeddingError {
    /// The message of the error.
    pub open spec fn text(&self) -> Seq<char> {
        match *self {
            EmbeddingError::UnknownModel(s) => "Unknown OpenAI model: "@ + s@
                + ". Use: small, large, or ada"@,
            EmbeddingError::KeyNeeded =>
                "OpenAI requires API key (--api-key or OPENAI_API_KEY env var)"@,
            EmbeddingError::KeyNeededForLarge => "OpenAI requires API key"@,
            EmbeddingError::UnknownProvider(s) => "Unknown embedding provider: "@ + s@
                + ". Use: openai, openai-large, local"@,
        }
    }

    /// The message of the error.
    pub fn message(&self) -> (r: String)
        ensures
            r@ == self.text(),
    {
        match self {
            EmbeddingError::UnknownModel(s) => {
                let mut m = copy_str("Unknown OpenAI model: ");
                push_str(&mut m, s.as_str());
                push_str(&mut m, ". Use: small, large, or ada");
                m
            },
            EmbeddingError::KeyNeeded => copy_str(
                "OpenAI requires API key (--api-key or OPENAI_API_KEY env var)",
            ),
            EmbeddingError::KeyNeededForLarge => copy_str("OpenAI requires API key"),
            EmbeddingError::UnknownProvider(s) => {
                let mut m = copy_str("Unknown embedding provider: ");
                push_str(&mut m, s.as_str());
                push_str(&mut m, ". Use: openai, openai-large, local");
                m
            },
        }
    }
}

impl OpenAIModel {
    /// Name of the model.
    pub fn as_str(&self) -> (r: &'static str)
        ensures
            r@ == (match *self {
                OpenAIModel::TextEmbedding3Small => "text-embedding-3-small"@,
                OpenAIModel::TextEmbedding3Large => "text-embedding-3-large"@,
                OpenAIModel::Ada002 => "text-embedding-ada-002"@,
            }),
            model_named(r@) == Some(*self),
    {
        proof {
            reveal_strlit("text-embedding-3-small");
            reveal_strlit("3-small");
            reveal_strlit("small");
            reveal_strlit("text-embedding-3-large");
            reveal_strlit("3-large");
            reveal_strlit("large");
            reveal_strlit("text-embedding-ada-002");
            reveal_strlit("ada-002");
            reveal_strlit("ada");
            let small = "text-embedding-3-small"@;
            let large = "text-embedding-3-large"@;
            let ada = "text-embedding-ada-002"@;
            assert(small.len() == 22 && large.len() == 22 && ada.len() == 22);
            assert("3-small"@.len() == 7 && "small"@.len() == 5);
            assert("3-large"@.len() == 7 && "large"@.len() == 5);
            assert(small[17] == 's' && large[17] == 'l' && ada[17] == 'a');
            assert(small != large && small != ada && large != ada);
            assert(model_named(small) == Some(OpenAIModel::TextEmbedding3Small));
            assert(model_named(large) == Some(OpenAIModel::TextEmbedding3Large));
            assert(model_named(ada) == Some(OpenAIModel::Ada002));
        }
        match self {
            OpenAIModel::TextEmbedding3Small => "text-embedding-3-small",
            OpenAIModel::TextEmbedding3Large => "text-embedding-3-large",
            OpenAIModel::Ada002 => "text-embedding-ada-002",
        }
    }

    /// Dimension of the embeddings.
    pub fn dimension(&self) -> (r: usize)
        ensures
            r == (match *self {
                OpenAIModel::TextEmbedding3Small => 1536usize,
                OpenAIModel::TextEmbedding3Large => 3072usize,
                OpenAIModel::Ada002 => 1536usize,
            }),
    {
        match self {
            OpenAIModel::TextEmbedding3Small => 1536,
            OpenAIModel::TextEmbedding3Large => 3072,
            OpenAIModel::Ada002 => 1536,
        }
    }

    /// The model with a name in lower case.
    pub fn from_lower(name: &str) -> (r: Option<OpenAIModel>)
        ensures
            r == model_named(name@),
    {
        if same_text(name, "text-embedding-3-small") || same_text(name, "3-small") || same_text(
            name,
            "small",
        ) {
            Some(OpenAIModel::TextEmbedding3Small)
        } else if same_text(name, "text-embedding-3-large") || same_text(name, "3-large")
            || same_text(name, "large") {
            Some(OpenAIModel::TextEmbedding3Large)
        } else if same_text(name, "text-embedding-ada-002") || same_text(name, "ada-002")
            || same_text(name, "ada") {
            Some(OpenAIModel::Ada002)
        } else {
            None
        }
    }

    /// The model with a name, letter case aside.
    pub fn from_str(s: &str) -> (r: Result<OpenAIModel, EmbeddingError>)
        ensures
            match r {
                Ok(m) => model_named(lowercase(s@)) == Some(m),
                Err(e) => model_named(lowercase(s@)) is None && (
                e matches EmbeddingError::UnknownModel(t) && t@ == s@),
            },
    {
        match OpenAIModel::from_lower(to_lower(s).as_str()) {
            Some(m) => Ok(m),
            None => Err(EmbeddingError::UnknownModel(copy_str(s))),
        }
    }
}

impl std::str::FromStr for OpenAIModel {
    type Err = EmbeddingError;

    fn from_str(s: &str) -> Result<OpenAIModel, EmbeddingError> {
        OpenAIModel::from_str(s)
    }
}

/// Embeddings that are made from hashes of the text.
#[derive(Debug, Clone, Copy)]
pub struct LocalHashEmbeddings {
    /// Dimension of the embeddings.
    pub dimension: usize,
}

impl LocalHashEmbeddings {
    /// Embeddings of a dimension.
    pub fn new(dimension: usize) -> (r: Self)
        ensures
            r.dimension == dimension,
    {
        LocalHashEmbeddings { dimension }
    }

    /// Embeddings of the usual dimension.
    pub fn with_default_dimension() -> (r: Self)
        ensures
            r.dimension == 384,
    {
        LocalHashEmbeddings::new(384)
    }

    /// Dimension of the embeddings.
    pub fn dimension(&self) -> (r: usize)
        ensures
            r == self.dimension,
    {
        self.dimension
    }

    /// Name of the provider.
    pub fn name(&self) -> (r: &'static str)
        ensures
            r@ == "local-hash"@,
    {
        "local-hash"
    }
}

impl Default for LocalHashEmbeddings {
    fn default() -> (r: Self)
        ensures
            r.dimension == 384,
    {
        LocalHashEmbeddings::new(384)
    }
}

/// The words of some texts, each in lower case.
pub open spec fn lower_words(all: Seq<&str>) -> Seq<Seq<char>>
    decreases all.len(),
{
    if all.len() == 0 {
        Seq::empty()
    } else {
        lower_words(all.drop_last()) + words(all.last()@).map_values(|w: Seq<char>| lowercase(w))
    }
}

/// A count as a key: keys run as the counts of 64 bits do.
pub open spec fn count_key(n: nat) -> i64 {
    if n <= u64::MAX {
        (n + i64::MIN) as i64
    } else {
        i64::MAX
    }
}

/// The counts of words as keys.
pub open spec fn count_keys(counts: Seq<(Seq<char>, nat)>) -> Seq<i64> {
    counts.map_values(|c: (Seq<char>, nat)| count_key(c.1))
}

/// The words at the first places of an order, as many as there are dimensions.
pub open spec fn first_words(
    counts: Seq<(Seq<char>, nat)>,
    order: Seq<usize>,
    dimension: nat,
) -> Seq<Seq<char>> {
    Seq::new(
        if dimension < order.len() {
            dimension
        } else {
            order.len()
        },
        |i: int| counts[order[i] as int].0,
    )
}

/// Whether a vocabulary of some words holds the most frequent of them: by their counts, words
/// that occur equally often in the order of their first occurrence.
pub open spec fn is_vocabulary(words: Seq<Seq<char>>, dimension: nat, v: Seq<Seq<char>>) -> bool {
    exists|o: Seq<usize>| #[trigger]
        ordered(count_keys(counted(words)), Direction::Descending, o) && v == first_words(
            counted(words),
            o,
            dimension,
        )
}

/// Position of a word in a vocabulary, or its size where it is not there.
pub open spec fn vocab_index(vocab: Seq<Seq<char>>, word: Seq<char>, i: int) -> int
    decreases vocab.len() - i,
{
    if i >= vocab.len() || vocab[i] == word {
        i
    } else {
        vocab_index(vocab, word, i + 1)
    }
}

/// How often the word of each dimension occurs, by the first counts of a text: where words
/// differ in letter case only, the last of them counts.
pub open spec fn weights(
    vocab: Seq<Seq<char>>,
    counts: Seq<(Seq<char>, nat)>,
    dimension: nat,
    n: int,
) -> Seq<nat>
    decreases n,
{
    if n <= 0 {
        Seq::new(dimension, |i: int| 0nat)
    } else {
        let w = weights(vocab, counts, dimension, n - 1);
        let k = vocab_index(vocab, lowercase(counts[n - 1].0), 0);
        if k < vocab.len() && k < dimension {
            w.update(k, counts[n - 1].1)
        } else {
            w
        }
    }
}

/// Embeddings by the frequency of words.
#[derive(Debug)]
pub struct TfIdfEmbeddings {
    dimension: usize,
    vocab: Vec<String>,
}

impl TfIdfEmbeddings {
    /// Dimension of the embeddings.
    pub closed spec fn width(&self) -> usize {
        self.dimension
    }

    /// The words, each at the position of its dimension.
    pub closed spec fn vocabulary(&self) -> Seq<Seq<char>> {
        texts(self.vocab@)
    }

    /// Embeddings of a dimension, without a vocabulary.
    pub fn new(dimension: usize) -> (r: Self)
        ensures
            r.width() == dimension,
            r.vocabulary() == Seq::<Seq<char>>::empty(),
    {
        let r = TfIdfEmbeddings { dimension, vocab: Vec::new() };
        assert(r.vocabulary() =~= Seq::<Seq<char>>::empty());
        r
    }

    /// Takes the most frequent words of some texts as the vocabulary, letter case aside, as
    /// many as there are dimensions.
    pub fn build_vocab(&mut self, all: &[&str])
        ensures
            final(self).width() == old(self).width(),
            is_vocabulary(
                lower_words(all@),
                old(self).width() as nat,
                final(self).vocabulary(),
            ),
            holds_most_frequent(
                lower_words(all@),
                old(self).width() as nat,
                final(self).vocabulary(),
            ),
    {
        let mut list: Vec<String> = Vec::new();
        let mut i: usize = 0;
        assert(texts(list@) =~= lower_words(all@.take(0)));
        while i < all.len()
            invariant
                i <= all@.len(),
                texts(list@) == lower_words(all@.take(i as int)),
            decreases all@.len() - i,
        {
            proof {
                assert(all@.take(i + 1).drop_last() =~= all@.take(i as int));
                assert(all@.take(i + 1).last() == all@[i as int]);
            }
            let found = split_words(all[i]);
            let ghost start = texts(list@);
            let ghost w = texts(found@);
            let mut j: usize = 0;
            while j < found.len()
                invariant
                    j <= found@.len(),
                    w == texts(found@),
                    texts(list@) == start + w.take(j as int).map_values(
                        |x: Seq<char>| lowercase(x),
                    ),
                decreases found@.len() - j,
            {
                let word = to_lower(found[j].as_str());
                let ghost was = list@;
                list.push(word);
                proof {
                    assert(texts(list@) =~= texts(was).push(word@));
                    assert(w.take(j + 1).map_values(|x: Seq<char>| lowercase(x)) =~= w.take(
                        j as int,
                    ).map_values(|x: Seq<char>| lowercase(x)).push(word@));
                    assert(texts(list@) =~= start + w.take(j + 1).map_values(
                        |x: Seq<char>| lowercase(x),
                    ));
                }
                j = j + 1;
            }
            assert(w.take(j as int) =~= w);
            i = i + 1;
        }
        assert(all@.take(i as int) =~= all@);
        let counts = tally(list.as_slice());
        let ghost c = counted(lower_words(all@));
        let mut keys: Vec<i64> = Vec::new();
        let mut k: usize = 0;
        proof {
            lemma_tally(counts@, c);
        }
        while k < counts.len()
            invariant
                k <= counts@.len(),
                counts@.len() == c.len(),
                forall|m: int|
                    0 <= m < counts@.len() ==> (#[trigger] counts@[m]).0@ == c[m].0 && counts@[m].1
                        == c[m].1,
                keys@ == count_keys(c.take(k as int)),
            decreases counts@.len() - k,
        {
            let n: usize = counts[k].1;
            let key: i64 = if (n as u64) <= 0x7fff_ffff_ffff_ffff {
                n as i64 + i64::MIN
            } else {
                (n as u64 - 0x8000_0000_0000_0000) as i64
            };
            assert(key == count_key(c[k as int].1));
            keys.push(key);
            assert(keys@ =~= count_keys(c.take(k + 1)));
            k = k + 1;
        }
        assert(c.take(k as int) =~= c);
        let order = order_by(keys.as_slice(), Direction::Descending);
        let limit: usize = if self.dimension < order.len() {
            self.dimension
        } else {
            order.len()
        };
        let mut vocab: Vec<String> = Vec::new();
        let mut m: usize = 0;
        while m < limit
            invariant
                m <= limit <= order@.len(),
                counts@.len() == c.len(),
                forall|x: int|
                    0 <= x < counts@.len() ==> (#[trigger] counts@[x]).0@ == c[x].0,
                forall|x: int| 0 <= x < order@.len() ==> (#[trigger] order@[x]) < counts@.len(),
                vocab@.len() == m,
                forall|x: int|
                    0 <= x < m ==> (#[trigger] vocab@[x])@ == c[order@[x] as int].0,
            decreases limit - m,
        {
            vocab.push(copy_str(counts[order[m]].0.as_str()));
            m = m + 1;
        }
        self.vocab = vocab;
        proof {
            let o = order@;
            assert(ordered(count_keys(c), Direction::Descending, o));
            assert(self.vocabulary() =~= first_words(c, o, old(self).width() as nat));
            assert(lower_words(all@).len() == list.len());
            law_vocabulary_is_most_frequent(
                lower_words(all@),
                old(self).width() as nat,
                self.vocabulary(),
            );
        }
    }

    /// How often the word of each dimension occurs in a text, and how many words the text has.
    pub fn text_to_embedding(&self, text: &str) -> (r: (Vec<usize>, usize))
        ensures
            r.1 == words(text@).len(),
            r.0@.map_values(|n: usize| n as nat) == weights(
                self.vocabulary(),
                counted(words(text@)),
                self.width() as nat,
                counted(words(text@)).len() as int,
            ),
    {
        let list = split_words(text);
        let counts = tally(list.as_slice());
        let ghost c = counted(words(text@));
        let ghost v = self.vocabulary();
        let mut out: Vec<usize> = Vec::new();
        let mut i: usize = 0;
        while i < self.dimension
            invariant
                i <= self.dimension,
                out@.len() == i,
                forall|k: int| 0 <= k < i ==> #[trigger] out@[k] == 0,
            decreases self.dimension - i,
        {
            out.push(0);
            i = i + 1;
        }
        let mut n: usize = 0;
        proof {
            lemma_tally(counts@, c);
            assert(out@.map_values(|n: usize| n as nat) =~= weights(
                v,
                c,
                self.width() as nat,
                0,
            ));
            assert(texts(list@).len() == list@.len());
        }
        while n < counts.len()
            invariant
                n <= counts@.len(),
                counts@.len() == c.len(),
                v == self.vocabulary(),
                forall|m: int|
                    0 <= m < counts@.len() ==> (#[trigger] counts@[m]).0@ == c[m].0 && counts@[m].1
                        == c[m].1,
                out@.len() == self.dimension,
                out@.map_values(|n: usize| n as nat) == weights(
                    v,
                    c,
                    self.width() as nat,
                    n as int,
                ),
            decreases counts@.len() - n,
        {
            let word = to_lower(counts[n].0.as_str());
            let k: usize = self.find(word.as_str());
            let ghost was = out@;
            if k < self.vocab.len() && k < self.dimension {
                out.set(k, counts[n].1);
                assert(out@.map_values(|n: usize| n as nat) =~= was.map_values(
                    |n: usize| n as nat,
                ).update(k as int, c[n as int].1));
            }
            assert(v.len() == self.vocab@.len());
            n = n + 1;
        }
        (out, list.len())
    }

    fn find(&self, word: &str) -> (r: usize)
        ensures
            r == vocab_index(self.vocabulary(), word@, 0),
            r <= self.vocab@.len(),
    {
        let ghost v = self.vocabulary();
        let mut i: usize = 0;
        while i < self.vocab.len()
            invariant
                i <= self.vocab@.len(),
                v == texts(self.vocab@),
                vocab_index(v, word@, 0) == vocab_index(v, word@, i as int),
            decreases self.vocab@.len() - i,
        {
            assert(v[i as int] == self.vocab@[i as int]@);
            if same_text(self.vocab[i].as_str(), word) {
                return i;
            }
            i = i + 1;
        }
        i
    }

    /// Dimension of the embeddings.
    pub fn dimension(&self) -> (r: usize)
        ensures
            r == self.width(),
    {
        self.dimension
    }

    /// Name of the provider.
    pub fn name(&self) -> (r: &'static str)
        ensures
            r@ == "tfidf"@,
    {
        "tfidf"
    }
}

/// A provider of embeddings.
#[derive(Debug)]
pub enum EmbeddingManager {
    /// A model of OpenAI, with the key of its service.
    OpenAI {
        /// The key.
        api_key: String,
        /// The model.
        model: OpenAIModel,
    },
    /// Embeddings from hashes.
    Local(LocalHashEmbeddings),
}

/// What a provider's name in lower case stands for: the model that needs a key, and whether
/// it is the large one, or a local provider.
pub enum ProviderKind {
    /// A model of OpenAI.
    OpenAI(OpenAIModel),
    /// Embeddings from hashes.
    Local,
}

/// The provider with a name in lower case.
pub open spec fn provider_named(name: Seq<char>) -> Option<ProviderKind> {
    if name == "openai"@ || name == "openai-small"@ {
        Some(ProviderKind::OpenAI(OpenAIModel::TextEmbedding3Small))
    } else if name == "openai-large"@ {
        Some(ProviderKind::OpenAI(OpenAIModel::TextEmbedding3Large))
    } else if name == "local"@ || name == "hash"@ || name == "local-hash"@ {
        Some(ProviderKind::Local)
    } else {
        None
    }
}

/// The key to use: the one that is given, else the one of the environment.
pub open spec fn key_of(given: Option<&str>, environment: Option<&str>) -> Option<Seq<char>> {
    match given {
        Some(k) => Some(k@),
        None => match environment {
            Some(k) => Some(k@),
            None => None,
        },
    }
}

impl EmbeddingManager {
    /// A model of OpenAI.
    pub fn openai(api_key: String, model: OpenAIModel) -> (r: Self)
        ensures
            r == (EmbeddingManager::OpenAI { api_key, model }),
    {
        EmbeddingManager::OpenAI { api_key, model }
    }

    /// Embeddings from hashes of a dimension.
    pub fn local(dimension: usize) -> (r: Self)
        ensures
            r == EmbeddingManager::Local(LocalHashEmbeddings { dimension }),
    {
        EmbeddingManager::Local(LocalHashEmbeddings::new(dimension))
    }

    /// Embeddings from hashes of the usual dimension.
    pub fn local_default() -> (r: Self)
        ensures
            r == EmbeddingManager::Local(LocalHashEmbeddings { dimension: 384 }),
    {
        EmbeddingManager::local(384)
    }

    /// The provider with a name in lower case, of which `name` is the text as it was given.
    pub fn from_lower(
        lower: &str,
        name: &str,
        api_key: Option<&str>,
        environment: Option<&str>,
    ) -> (r: Result<Self, EmbeddingError>)
        ensures
            manager_made(r, provider_named(lower@), name@, key_of(api_key, environment)),
    {
        let key = match api_key {
            Some(k) => Some(copy_str(k)),
            None => match environment {
                Some(k) => Some(copy_str(k)),
                None => None,
            },
        };
        if same_text(lower, "openai") || same_text(lower, "openai-small") {
            match key {
                Some(k) => Ok(EmbeddingManager::openai(k, OpenAIModel::TextEmbedding3Small)),
                None => Err(EmbeddingError::KeyNeeded),
            }
        } else if same_text(lower, "openai-large") {
            match key {
                Some(k) => Ok(EmbeddingManager::openai(k, OpenAIModel::TextEmbedding3Large)),
                None => Err(EmbeddingError::KeyNeededForLarge),
            }
        } else if same_text(lower, "local") || same_text(lower, "hash") || same_text(
            lower,
            "local-hash",
        ) {
            Ok(EmbeddingManager::local_default())
        } else {
            Err(EmbeddingError::UnknownProvider(copy_str(name)))
        }
    }

    /// The provider with a name, letter case aside, with a key that is given or that of the
    /// environment.
    pub fn from_name(name: &str, api_key: Option<&str>, environment: Option<&str>) -> (r: Result<
        Self,
        EmbeddingError,
    >)
        ensures
            manager_made(
                r,
                provider_named(lowercase(name@)),
                name@,
                key_of(api_key, environment),
            ),
    {
        EmbeddingManager::from_lower(to_lower(name).as_str(), name, api_key, environment)
    }

    /// Dimension of the embeddings.
    pub fn dimension(&self) -> (r: usize)
        ensures
            r == (match *self {
                EmbeddingManager::OpenAI { model, .. } => match model {
                    OpenAIModel::TextEmbedding3Large => 3072usize,
                    _ => 1536usize,
                },
                EmbeddingManager::Local(l) => l.dimension,
            }),
    {
        match self {
            EmbeddingManager::OpenAI { model, .. } => model.dimension(),
            EmbeddingManager::Local(l) => l.dimension,
        }
    }

    /// Name of the provider.
    pub fn name(&self) -> (r: &'static str)
        ensures
            r@ == (match *self {
                EmbeddingManager::OpenAI { .. } => "openai"@,
                EmbeddingManager::Local(_) => "local-hash"@,
            }),
    {
        match self {
            EmbeddingManager::OpenAI { .. } => "openai",
            EmbeddingManager::Local(_) => "local-hash",
        }
    }
}

/// The outcome of choosing a provider.
pub open spec fn manager_made(
    r: Result<EmbeddingManager, EmbeddingError>,
    kind: Option<ProviderKind>,
    name: Seq<char>,
    key: Option<Seq<char>>,
) -> bool {
    match kind {
        Some(ProviderKind::OpenAI(model)) => match key {
            Some(k) => r matches Ok(EmbeddingManager::OpenAI { api_key, model: m }) && api_key@ == k
                && m == model,
            None => r matches Err(e) && e == (if model == OpenAIModel::TextEmbedding3Large {
                EmbeddingError::KeyNeededForLarge
            } else {
                EmbeddingError::KeyNeeded
            }),
        },
        Some(ProviderKind::Local) => r == Ok::<EmbeddingManager, EmbeddingError>(
            EmbeddingManager::Local(LocalHashEmbeddings { dimension: 384 }),
        ),
        None => r matches Err(EmbeddingError::UnknownProvider(t)) && t@ == name,
    }
}

/// Whether a vocabulary holds the most frequent of some words: as many as there are dimensions,
/// or all of them, each once, the more frequent first, and none that is left out occurs more
/// often than one that is in it.
pub open spec fn holds_most_frequent(
    words: Seq<Seq<char>>,
    dimension: nat,
    v: Seq<Seq<char>>,
) -> bool {
    &&& v.len() == (if dimension < counted(words).len() {
        dimension
    } else {
        counted(words).len()
    })
    &&& v.no_duplicates()
    &&& forall|i: int| 0 <= i < v.len() ==> occurrences(words, #[trigger] v[i]) > 0
    &&& forall|i: int, j: int|
        0 <= i <= j < v.len() ==> occurrences(words, #[trigger] v[j]) <= occurrences(
            words,
            #[trigger] v[i],
        )
    &&& forall|w: Seq<char>, i: int|
        !v.contains(w) && 0 <= i < v.len() ==> #[trigger] occurrences(words, w) <= occurrences(
            words,
            #[trigger] v[i],
        )
}

/// A vocabulary holds the most frequent of some words. Where two vocabularies are built from the
/// same words for the same number of dimensions, they are the same, whatever was there before.
pub proof fn law_vocabulary_is_most_frequent(
    words: Seq<Seq<char>>,
    dimension: nat,
    v: Seq<Seq<char>>,
)
    requires
        is_vocabulary(words, dimension, v),
        words.len() <= u64::MAX,
    ensures
        holds_most_frequent(words, dimension, v),
        forall|other: Seq<Seq<char>>| is_vocabulary(words, dimension, other) ==> other == v,
{
    let c = counted(words);
    let keys = count_keys(c);
    let o = choose|o: Seq<usize>| #[trigger]
        ordered(keys, Direction::Descending, o) && v == first_words(c, o, dimension);
    lemma_counted(words);
    assert forall|k: int| 0 <= k < c.len() implies #[trigger] keys[k] == c[k].1 + i64::MIN by {}
    assert forall|i: int| 0 <= i < v.len() implies occurrences(words, #[trigger] v[i]) == c[o[i]
        as int].1 by {
        assert(o[i] < keys.len());
        assert(c[o[i] as int].1 == occurrences(words, c[o[i] as int].0));
    }
    assert forall|i: int, j: int| 0 <= i < o.len() && 0 <= j < o.len() && i != j implies c[
    #[trigger] o[i] as int].0 != c[#[trigger] o[j] as int].0 by {
        lemma_ordered_is_complete(keys, Direction::Descending, o, o[i] as int);
        let a = o[i] as int;
        let b = o[j] as int;
        assert(o[i] != o[j]);
        if a < b {
            assert(c[a].0 != c[b].0);
        } else {
            assert(c[b].0 != c[a].0);
        }
    }
    assert forall|i: int, j: int| 0 <= i < v.len() && 0 <= j < v.len() && i != j implies v[i]
        != v[j] by {
        assert(c[o[i] as int].0 != c[o[j] as int].0);
    }
    assert forall|i: int, j: int| 0 <= i <= j < v.len() implies occurrences(words, #[trigger] v[j])
        <= occurrences(words, #[trigger] v[i]) by {
        if i < j {
            assert(precedes(keys, Direction::Descending, o[i] as int, o[j] as int));
        }
    }
    assert forall|w: Seq<char>, i: int|
        !v.contains(w) && 0 <= i < v.len() implies #[trigger] occurrences(words, w) <= occurrences(
        words,
        #[trigger] v[i],
    ) by {
        law_counts_are_occurrences(words, w);
        let k = place(c, w);
        lemma_place(c, w);
        if k < c.len() {
            lemma_ordered_is_complete(keys, Direction::Descending, o, k);
            let j = choose|j: int| 0 <= j < o.len() && #[trigger] o[j] == k;
            if j < v.len() {
                assert(v[j] == w);
            } else {
                assert(precedes(keys, Direction::Descending, o[i] as int, o[j] as int));
            }
        }
    }
    assert forall|other: Seq<Seq<char>>| is_vocabulary(words, dimension, other) implies other
        == v by {
        let q = choose|q: Seq<usize>| #[trigger]
            ordered(keys, Direction::Descending, q) && other == first_words(c, q, dimension);
        law_order_is_unique(keys, Direction::Descending, o, q);
    }
}

/// The words of some texts are those of each text in lower case, one text after the other.
pub proof fn law_lower_words(a: Seq<&str>, b: Seq<&str>)
    ensures
        lower_words(a + b) == lower_words(a) + lower_words(b),
        b.len() == 1 ==> lower_words(b) == words(b[0]@).map_values(|w: Seq<char>| lowercase(w)),
    decreases b.len(),
{
    if b.len() == 0 {
        assert(a + b =~= a);
        assert(lower_words(a) + lower_words(b) =~= lower_words(a));
    } else {
        assert((a + b).drop_last() =~= a + b.drop_last());
        law_lower_words(a, b.drop_last());
        let w = words(b.last()@).map_values(|w: Seq<char>| lowercase(w));
        assert(lower_words(a) + lower_words(b.drop_last()) + w =~= lower_words(a) + (lower_words(
            b.drop_last(),
        ) + w));
        if b.len() == 1 {
            assert(lower_words(b.drop_last()) =~= Seq::<Seq<char>>::empty());
            assert(lower_words(b) =~= w);
        }
    }
}

proof fn lemma_vocab_index(vocab: Seq<Seq<char>>, word: Seq<char>, i: int)
    requires
        0 <= i <= vocab.len(),
    ensures
        i <= vocab_index(vocab, word, i) <= vocab.len(),
        vocab_index(vocab, word, i) < vocab.len() ==> vocab[vocab_index(vocab, word, i)] == word,
        forall|k: int| i <= k < vocab_index(vocab, word, i) ==> #[trigger] vocab[k] != word,
    decreases vocab.len() - i,
{
    if i < vocab.len() && vocab[i] != word {
        lemma_vocab_index(vocab, word, i + 1);
    }
}

/// The embedding of a text has, at the place of each word of the vocabulary, the count of that
/// word in the text, letter case aside: where words differ in letter case only, that of the last
/// one. A word that the text does not hold has zero, as have the places without a word.
pub proof fn law_weights(
    vocab: Seq<Seq<char>>,
    counts: Seq<(Seq<char>, nat)>,
    dimension: nat,
    n: int,
    d: int,
)
    requires
        vocab.no_duplicates(),
        0 <= n <= counts.len(),
        0 <= d < dimension,
    ensures
        ({
            let w = weights(vocab, counts, dimension, n);
            &&& w.len() == dimension
            &&& forall|j: int|
                0 <= j < n && d < vocab.len() && lowercase((#[trigger] counts[j]).0) == vocab[d]
                    && (forall|k: int|
                    j < k < n ==> lowercase((#[trigger] counts[k]).0) != vocab[d]) ==> w[d]
                    == counts[j].1
            &&& (d >= vocab.len() || forall|j: int|
                0 <= j < n ==> lowercase((#[trigger] counts[j]).0) != vocab[d]) ==> w[d] == 0
        }),
    decreases n,
{
    if n > 0 {
        law_weights(vocab, counts, dimension, n - 1, d);
        let word = lowercase(counts[n - 1].0);
        lemma_vocab_index(vocab, word, 0);
        let k = vocab_index(vocab, word, 0);
        if d < vocab.len() && word == vocab[d] {
            assert(k == d);
        }
        let w = weights(vocab, counts, dimension, n);
        assert forall|j: int|
            0 <= j < n && d < vocab.len() && lowercase((#[trigger] counts[j]).0) == vocab[d] && (
            forall|m: int|
                j < m < n ==> lowercase((#[trigger] counts[m]).0) != vocab[d]) implies w[d]
            == counts[j].1 by {
            if j < n - 1 {
                assert(lowercase(counts[n - 1].0) != vocab[d]);
            }
        }
    }
}

/// The names of the models, by their characters.
pub proof fn law_model_names(lower: Seq<char>)
    ensures
        model_named(lower) == Some(OpenAIModel::TextEmbedding3Small) <==> {
            ||| lower == seq!['t', 'e', 'x', 't', '-', 'e', 'm', 'b', 'e', 'd', 'd', 'i', 'n', 'g', '-', '3', '-', 's', 'm', 'a', 'l', 'l']
            ||| lower == seq!['3', '-', 's', 'm', 'a', 'l', 'l']
            ||| lower == seq!['s', 'm', 'a', 'l', 'l']
        },
        model_named(lower) == Some(OpenAIModel::TextEmbedding3Large) <==> {
            ||| lower == seq!['t', 'e', 'x', 't', '-', 'e', 'm', 'b', 'e', 'd', 'd', 'i', 'n', 'g', '-', '3', '-', 'l', 'a', 'r', 'g', 'e']
            ||| lower == seq!['3', '-', 'l', 'a', 'r', 'g', 'e']
            ||| lower == seq!['l', 'a', 'r', 'g', 'e']
        },
        model_named(lower) == Some(OpenAIModel::Ada002) <==> {
            ||| lower == seq!['t', 'e', 'x', 't', '-', 'e', 'm', 'b', 'e', 'd', 'd', 'i', 'n', 'g', '-', 'a', 'd', 'a', '-', '0', '0', '2']
            ||| lower == seq!['a', 'd', 'a', '-', '0', '0', '2']
            ||| lower == seq!['a', 'd', 'a']
        },
{
    reveal_strlit("text-embedding-3-small");
    assert("text-embedding-3-small"@ =~= seq!['t', 'e', 'x', 't', '-', 'e', 'm', 'b', 'e', 'd', 'd', 'i', 'n', 'g', '-', '3', '-', 's', 'm', 'a', 'l', 'l']);
    reveal_strlit("3-small");
    assert("3-small"@ =~= seq!['3', '-', 's', 'm', 'a', 'l', 'l']);
    reveal_strlit("small");
    assert("small"@ =~= seq!['s', 'm', 'a', 'l', 'l']);
    reveal_strlit("text-embedding-3-large");
    assert("text-embedding-3-large"@ =~= seq!['t', 'e', 'x', 't', '-', 'e', 'm', 'b', 'e', 'd', 'd', 'i', 'n', 'g', '-', '3', '-', 'l', 'a', 'r', 'g', 'e']);
    reveal_strlit("3-large");
    assert("3-large"@ =~= seq!['3', '-', 'l', 'a', 'r', 'g', 'e']);
    reveal_strlit("large");
    assert("large"@ =~= seq!['l', 'a', 'r', 'g', 'e']);
    reveal_strlit("text-embedding-ada-002");
    assert("text-embedding-ada-002"@ =~= seq!['t', 'e', 'x', 't', '-', 'e', 'm', 'b', 'e', 'd', 'd', 'i', 'n', 'g', '-', 'a', 'd', 'a', '-', '0', '0', '2']);
    reveal_strlit("ada-002");
    assert("ada-002"@ =~= seq!['a', 'd', 'a', '-', '0', '0', '2']);
    reveal_strlit("ada");
    assert("ada"@ =~= seq!['a', 'd', 'a']);
    assert(seq!['t', 'e', 'x', 't', '-', 'e', 'm', 'b', 'e', 'd', 'd', 'i', 'n', 'g', '-', '3', '-', 's', 'm', 'a', 'l', 'l'][17] != seq!['t', 'e', 'x', 't', '-', 'e', 'm', 'b', 'e', 'd', 'd', 'i', 'n', 'g', '-', '3', '-', 'l', 'a', 'r', 'g', 'e'][17]);
    assert(seq!['3', '-', 's', 'm', 'a', 'l', 'l'][2] != seq!['3', '-', 'l', 'a', 'r', 'g', 'e'][2]);
    assert(seq!['s', 'm', 'a', 'l', 'l'][0] != seq!['l', 'a', 'r', 'g', 'e'][0]);
    assert(seq!['t', 'e', 'x', 't', '-', 'e', 'm', 'b', 'e', 'd', 'd', 'i', 'n', 'g', '-', '3', '-', 's', 'm', 'a', 'l', 'l'][15] != seq!['t', 'e', 'x', 't', '-', 'e', 'm', 'b', 'e', 'd', 'd', 'i', 'n', 'g', '-', 'a', 'd', 'a', '-', '0', '0', '2'][15]);
    assert(seq!['3', '-', 's', 'm', 'a', 'l', 'l'][0] != seq!['a', 'd', 'a', '-', '0', '0', '2'][0]);
    assert(seq!['t', 'e', 'x', 't', '-', 'e', 'm', 'b', 'e', 'd', 'd', 'i', 'n', 'g', '-', '3', '-', 'l', 'a', 'r', 'g', 'e'][15] != seq!['t', 'e', 'x', 't', '-', 'e', 'm', 'b', 'e', 'd', 'd', 'i', 'n', 'g', '-', 'a', 'd', 'a', '-', '0', '0', '2'][15]);
    assert(seq!['3', '-', 'l', 'a', 'r', 'g', 'e'][0] != seq!['a', 'd', 'a', '-', '0', '0', '2'][0]);
}

/// The names of the providers, by their characters.
pub proof fn law_provider_names(lower: Seq<char>)
    ensures
        provider_named(lower) == Some(ProviderKind::OpenAI(OpenAIModel::TextEmbedding3Small)) <==> {
            ||| lower == seq!['o', 'p', 'e', 'n', 'a', 'i']
            ||| lower == seq!['o', 'p', 'e', 'n', 'a', 'i', '-', 's', 'm', 'a', 'l', 'l']
        },
        provider_named(lower) == Some(ProviderKind::OpenAI(OpenAIModel::TextEmbedding3Large)) <==> {
            ||| lower == seq!['o', 'p', 'e', 'n', 'a', 'i', '-', 'l', 'a', 'r', 'g', 'e']
        },
        provider_named(lower) == Some(ProviderKind::Local) <==> {
            ||| lower == seq!['l', 'o', 'c', 'a', 'l']
            ||| lower == seq!['h', 'a', 's', 'h']
            ||| lower == seq!['l', 'o', 'c', 'a', 'l', '-', 'h', 'a', 's', 'h']
        },
{
    reveal_strlit("openai");
    assert("openai"@ =~= seq!['o', 'p', 'e', 'n', 'a', 'i']);
    reveal_strlit("openai-small");
    assert("openai-small"@ =~= seq!['o', 'p', 'e', 'n', 'a', 'i', '-', 's', 'm', 'a', 'l', 'l']);
    reveal_strlit("openai-large");
    assert("openai-large"@ =~= seq!['o', 'p', 'e', 'n', 'a', 'i', '-', 'l', 'a', 'r', 'g', 'e']);
    reveal_strlit("local");
    assert("local"@ =~= seq!['l', 'o', 'c', 'a', 'l']);
    reveal_strlit("hash");
    assert("hash"@ =~= seq!['h', 'a', 's', 'h']);
    reveal_strlit("local-hash");
    assert("local-hash"@ =~= seq!['l', 'o', 'c', 'a', 'l', '-', 'h', 'a', 's', 'h']);
    assert(seq!['o', 'p', 'e', 'n', 'a', 'i', '-', 's', 'm', 'a', 'l', 'l'][7] != seq!['o', 'p', 'e', 'n', 'a', 'i', '-', 'l', 'a', 'r', 'g', 'e'][7]);
}

} // verus!
