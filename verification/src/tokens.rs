//! Design tokens: collections of named values with modes, aliases between
//! tokens, and resolution of a token to its final value.
//!
//! The library is generic in the type of the stored values: resolution and
//! alias bookkeeping never look inside a value, they only carry it.
use std::collections::HashMap;
use vstd::prelude::*;
use crate::seqs::{first_index, index_from, lemma_index_from, lemma_distinct_within};
use crate::style::{CollectionId, TokenId, TokenRef};

verus! {

broadcast use {vstd::std_specs::hash::group_hash_axioms, vstd::seq_lib::group_seq_properties};

/// Identifier of a mode (e.g. "Light", "Dark") of a collection.
pub type ModeId = u32;

/// A token addressed by collection identifier and token identifier.
pub type TokenKey = (CollectionId, TokenId);

/// Why a token could not be resolved or changed.
#[derive(Debug, Clone, Copy, PartialEq, Eq, Structural)]
pub enum TokenError {
    NotFound,
    CyclicAlias,
    MissingValue,
    CollectionNotFound,
}

/// The kind of value a token holds.
#[derive(Debug, Clone, Copy, PartialEq, Eq, Structural)]
pub enum TokenType {
    Color,
    Number,
    Dimension,
    FontFamily,
    FontWeight,
    Duration,
    CubicBezier,
    String,
}

/// Units of a dimension token.
#[derive(Debug, Clone, Copy, PartialEq, Eq, Structural)]
pub enum DimensionUnit {
    Px,
    Pt,
    Mm,
    In,
    Rem,
    Em,
    Percent,
}

/// A token value. Colors and decimal quantities are carried as the type
/// parameters `C` and `F`: nothing here reads them.
#[derive(Debug, Clone)]
pub enum TokenValue<C, F> {
    Color(C),
    Number(F),
    Dimension { value: F, unit: DimensionUnit },
    FontFamily(String),
    FontWeight(u16),
    Duration(F),
    CubicBezier([F; 4]),
    String(String),
}

/// The kind of a token value.
pub open spec fn value_type<C, F>(v: TokenValue<C, F>) -> TokenType {
    match v {
        TokenValue::Color(_) => TokenType::Color,
        TokenValue::Number(_) => TokenType::Number,
        TokenValue::Dimension { .. } => TokenType::Dimension,
        TokenValue::FontFamily(_) => TokenType::FontFamily,
        TokenValue::FontWeight(_) => TokenType::FontWeight,
        TokenValue::Duration(_) => TokenType::Duration,
        TokenValue::CubicBezier(_) => TokenType::CubicBezier,
        TokenValue::String(_) => TokenType::String,
    }
}

impl<C, F> TokenValue<C, F> {
    /// The kind of value this is.
    pub fn token_type(&self) -> (r: TokenType)
        ensures
            r == value_type(*self),
    {
        match self {
            TokenValue::Color(_) => TokenType::Color,
            TokenValue::Number(_) => TokenType::Number,
            TokenValue::Dimension { .. } => TokenType::Dimension,
            TokenValue::FontFamily(_) => TokenType::FontFamily,
            TokenValue::FontWeight(_) => TokenType::FontWeight,
            TokenValue::Duration(_) => TokenType::Duration,
            TokenValue::CubicBezier(_) => TokenType::CubicBezier,
            TokenValue::String(_) => TokenType::String,
        }
    }
}

/// The value of a token in one mode: a value, or an alias to another token.
#[derive(Debug, Clone)]
pub enum TokenResolve<V> {
    Direct(V),
    Alias(TokenRef),
}

/// A named token with one value (or alias) per mode.
#[derive(Debug, Clone)]
pub struct Token<V> {
    pub id: TokenId,
    pub name: String,
    pub group: Option<String>,
    pub values: HashMap<ModeId, TokenResolve<V>>,
}

/// A mode of a collection.
#[derive(Debug, Clone)]
pub struct Mode {
    pub id: ModeId,
    pub name: String,
}

/// A collection of tokens sharing a set of modes.
#[derive(Debug, Clone)]
pub struct TokenCollection<V> {
    pub id: CollectionId,
    pub name: String,
    pub modes: Vec<Mode>,
    pub default_mode: ModeId,
    pub tokens: Vec<Token<V>>,
}

/// All token collections of a document, the active mode of each collection,
/// and the counters that hand out fresh identifiers.
#[derive(Debug, Clone)]
pub struct DesignTokens<V> {
    pub collections: Vec<TokenCollection<V>>,
    pub active_modes: HashMap<CollectionId, ModeId>,
    next_collection_id: CollectionId,
    next_token_id: TokenId,
    next_mode_id: ModeId,
}

// ─── Mathematical models ───

/// Model of a mode.
pub struct ModeView {
    pub id: ModeId,
    pub name: Seq<char>,
}

/// Model of a token.
pub struct TokenView<V> {
    pub id: TokenId,
    pub name: Seq<char>,
    pub group: Option<Seq<char>>,
    pub values: Map<ModeId, TokenResolve<V>>,
}

/// Model of a collection.
pub struct CollectionView<V> {
    pub id: CollectionId,
    pub name: Seq<char>,
    pub modes: Seq<ModeView>,
    pub default_mode: ModeId,
    pub tokens: Seq<TokenView<V>>,
}

/// Model of the design tokens of a document.
pub struct TokensView<V> {
    pub collections: Seq<CollectionView<V>>,
    pub active_modes: Map<CollectionId, ModeId>,
    pub next_collection_id: CollectionId,
    pub next_token_id: TokenId,
    pub next_mode_id: ModeId,
}

impl View for Mode {
    type V = ModeView;

    open spec fn view(&self) -> ModeView {
        ModeView { id: self.id, name: self.name@ }
    }
}

impl<V> View for Token<V> {
    type V = TokenView<V>;

    open spec fn view(&self) -> TokenView<V> {
        TokenView {
            id: self.id,
            name: self.name@,
            group: match &self.group {
                Some(g) => Some(g@),
                None => None,
            },
            values: self.values@,
        }
    }
}

impl<V> View for TokenCollection<V> {
    type V = CollectionView<V>;

    open spec fn view(&self) -> CollectionView<V> {
        CollectionView {
            id: self.id,
            name: self.name@,
            modes: self.modes@.map_values(|m: Mode| m@),
            default_mode: self.default_mode,
            tokens: self.tokens@.map_values(|t: Token<V>| t@),
        }
    }
}

impl<V> View for DesignTokens<V> {
    type V = TokensView<V>;

    closed spec fn view(&self) -> TokensView<V> {
        TokensView {
            collections: self.collections@.map_values(|c: TokenCollection<V>| c@),
            active_modes: self.active_modes@,
            next_collection_id: self.next_collection_id,
            next_token_id: self.next_token_id,
            next_mode_id: self.next_mode_id,
        }
    }
}

/// Identifiers of a sequence of collections, in order.
pub open spec fn collection_ids<V>(cols: Seq<CollectionView<V>>) -> Seq<CollectionId> {
    cols.map_values(|c: CollectionView<V>| c.id)
}

/// Identifiers of a sequence of tokens, in order.
pub open spec fn token_ids<V>(toks: Seq<TokenView<V>>) -> Seq<TokenId> {
    toks.map_values(|t: TokenView<V>| t.id)
}

/// Identifiers of a sequence of modes, in order.
pub open spec fn mode_ids(modes: Seq<ModeView>) -> Seq<ModeId> {
    modes.map_values(|m: ModeView| m.id)
}

/// The keys of all tokens of all collections, collection by collection.
pub open spec fn all_keys<V>(cols: Seq<CollectionView<V>>) -> Seq<TokenKey>
    decreases cols.len(),
{
    if cols.len() == 0 {
        Seq::empty()
    } else {
        all_keys(cols.drop_last()) + cols.last().tokens.map_values(
            |t: TokenView<V>| (cols.last().id, t.id),
        )
    }
}

impl<V> TokensView<V> {
    /// Where a key is stored: the first collection with its collection
    /// identifier, and in it the first token with its token identifier.
    pub open spec fn locate(self, key: TokenKey) -> Option<(int, int)> {
        match first_index(collection_ids(self.collections), key.0) {
            None => None,
            Some(ci) => match first_index(token_ids(self.collections[ci].tokens), key.1) {
                None => None,
                Some(ti) => Some((ci, ti)),
            },
        }
    }

    /// One step of resolution: the value or alias a key stands for in the
    /// active mode of its collection, falling back to the default mode.
    pub open spec fn lookup(self, key: TokenKey) -> Result<TokenResolve<V>, TokenError> {
        match first_index(collection_ids(self.collections), key.0) {
            None => Err(TokenError::CollectionNotFound),
            Some(ci) => {
                let col = self.collections[ci];
                match first_index(token_ids(col.tokens), key.1) {
                    None => Err(TokenError::NotFound),
                    Some(ti) => {
                        let values = col.tokens[ti].values;
                        if self.active_modes.contains_key(key.0) && values.contains_key(
                            self.active_modes[key.0],
                        ) {
                            Ok(values[self.active_modes[key.0]])
                        } else if values.contains_key(col.default_mode) {
                            Ok(values[col.default_mode])
                        } else {
                            Err(TokenError::MissingValue)
                        }
                    },
                }
            },
        }
    }

    /// The value or alias a key stands for in the default mode of its
    /// collection, if the key is stored and has a value there.
    pub open spec fn default_lookup(self, key: TokenKey) -> Option<TokenResolve<V>> {
        match self.locate(key) {
            None => None,
            Some((ci, ti)) => {
                let col = self.collections[ci];
                if col.tokens[ti].values.contains_key(col.default_mode) {
                    Some(col.tokens[ti].values[col.default_mode])
                } else {
                    None
                }
            },
        }
    }

    /// Number of stored tokens, over all collections.
    pub open spec fn token_count(self) -> nat {
        all_keys(self.collections).len()
    }

    /// Resolution of `key` having already passed through `visited`, with
    /// `fuel` steps allowed; enough fuel is always given (see
    /// `lemma_visited_bounded`), so the first branch is never taken.
    pub open spec fn resolve_from(
        self,
        key: TokenKey,
        visited: Seq<TokenKey>,
        fuel: nat,
    ) -> Result<V, TokenError>
        decreases fuel,
    {
        if fuel == 0 {
            Err(TokenError::CyclicAlias)
        } else if visited.contains(key) {
            Err(TokenError::CyclicAlias)
        } else {
            match self.lookup(key) {
                Err(e) => Err(e),
                Ok(TokenResolve::Direct(v)) => Ok(v),
                Ok(TokenResolve::Alias(r)) => self.resolve_from(
                    (r.collection_id, r.token_id),
                    visited.push(key),
                    (fuel - 1) as nat,
                ),
            }
        }
    }

    /// The final value of a token: follow aliases through the active (or
    /// default) modes until a value is reached; fails with `CyclicAlias` when
    /// the chain comes back to a token it passed.
    pub open spec fn resolved(self, key: TokenKey) -> Result<V, TokenError> {
        self.resolve_from(key, Seq::empty(), self.token_count() + 1)
    }

    /// Whether the default-mode alias chain starting at `cur`, having passed
    /// through `visited`, reaches `target`.
    pub open spec fn chain_reaches(
        self,
        target: TokenKey,
        cur: TokenKey,
        visited: Seq<TokenKey>,
        fuel: nat,
    ) -> bool
        decreases fuel,
    {
        if fuel == 0 {
            false
        } else if cur == target {
            true
        } else if visited.contains(cur) {
            false
        } else {
            match self.default_lookup(cur) {
                Some(TokenResolve::Alias(r)) => self.chain_reaches(
                    target,
                    (r.collection_id, r.token_id),
                    visited.push(cur),
                    (fuel - 1) as nat,
                ),
                _ => false,
            }
        }
    }

    /// Whether making `from` an alias of `to` would close a cycle: the
    /// default-mode alias chain from `to` leads back to `from`.
    pub open spec fn would_cycle(self, from: TokenKey, to: TokenKey) -> bool {
        self.chain_reaches(from, to, Seq::empty(), self.token_count() + 1)
    }
}

// ─── Counting stored tokens ───

/// Every stored (collection, token) position appears among `all_keys`.
proof fn lemma_all_keys_contains<V>(cols: Seq<CollectionView<V>>, ci: int, ti: int)
    requires
        0 <= ci < cols.len(),
        0 <= ti < cols[ci].tokens.len(),
    ensures
        all_keys(cols).contains((cols[ci].id, cols[ci].tokens[ti].id)),
    decreases cols.len(),
{
    let key = (cols[ci].id, cols[ci].tokens[ti].id);
    let rest = all_keys(cols.drop_last());
    let tail = cols.last().tokens.map_values(|t: TokenView<V>| (cols.last().id, t.id));
    if ci == cols.len() - 1 {
        assert((rest + tail)[rest.len() + ti] == key);
    } else {
        lemma_all_keys_contains(cols.drop_last(), ci, ti);
        let k = choose|k: int| 0 <= k < rest.len() && rest[k] == key;
        assert((rest + tail)[k] == key);
    }
}

/// The stored keys depend on the identifiers only.
proof fn lemma_all_keys_same_ids<V>(a: Seq<CollectionView<V>>, b: Seq<CollectionView<V>>)
    requires
        collection_ids(a) == collection_ids(b),
        forall|c: int| 0 <= c < b.len() ==> #[trigger] token_ids(a[c].tokens) == token_ids(
            b[c].tokens,
        ),
    ensures
        all_keys(a) == all_keys(b),
    decreases a.len(),
{
    assert(a.len() == collection_ids(a).len());
    assert(b.len() == collection_ids(b).len());
    if a.len() > 0 {
        let n = a.len() - 1;
        assert(collection_ids(a.drop_last()) =~= collection_ids(b.drop_last())) by {
            assert forall|i: int| 0 <= i < n implies collection_ids(a.drop_last())[i] == collection_ids(
                b.drop_last(),
            )[i] by {
                let ca = collection_ids(a);
                let cb = collection_ids(b);
                assert(ca[i] == a[i].id);
                assert(cb[i] == b[i].id);
                assert(ca[i] == cb[i]);
                assert(a.drop_last()[i] == a[i]);
                assert(b.drop_last()[i] == b[i]);
            }
        }
        assert forall|c: int| 0 <= c < b.drop_last().len() implies #[trigger] token_ids(
            a.drop_last()[c].tokens,
        ) == token_ids(b.drop_last()[c].tokens) by {
            assert(token_ids(a[c].tokens) == token_ids(b[c].tokens));
        }
        lemma_all_keys_same_ids(a.drop_last(), b.drop_last());
        assert(collection_ids(a)[n] == collection_ids(b)[n]);
        assert(token_ids(a[n].tokens) == token_ids(b[n].tokens));
        let ta = a.last().tokens.map_values(|t: TokenView<V>| (a.last().id, t.id));
        let tb = b.last().tokens.map_values(|t: TokenView<V>| (b.last().id, t.id));
        assert(ta =~= tb) by {
            assert(a.last().tokens.len() == token_ids(a[n].tokens).len());
            assert(b.last().tokens.len() == token_ids(b[n].tokens).len());
            assert(collection_ids(a)[n] == a[n].id);
            assert(collection_ids(b)[n] == b[n].id);
            assert forall|i: int| 0 <= i < ta.len() implies ta[i] == tb[i] by {
                assert(token_ids(a[n].tokens)[i] == token_ids(b[n].tokens)[i]);
                assert(token_ids(a[n].tokens)[i] == a[n].tokens[i].id);
                assert(token_ids(b[n].tokens)[i] == b[n].tokens[i].id);
            }
        }
    }
}

impl<V> TokensView<V> {
    /// A key that `lookup` or `locate` finds is among the stored keys.
    pub proof fn lemma_located_is_stored(self, key: TokenKey)
        requires
            self.locate(key) is Some,
        ensures
            all_keys(self.collections).contains(key),
    {
        let ids = collection_ids(self.collections);
        lemma_index_from(ids, key.0, 0);
        let ci = first_index(ids, key.0)->0;
        let tids = token_ids(self.collections[ci].tokens);
        lemma_index_from(tids, key.1, 0);
        let ti = first_index(tids, key.1)->0;
        lemma_all_keys_contains(self.collections, ci, ti);
    }

    /// A sequence of distinct stored keys has at most `token_count` items.
    pub proof fn lemma_visited_bounded(self, visited: Seq<TokenKey>)
        requires
            visited.no_duplicates(),
            forall|i: int| 0 <= i < visited.len() ==> self.locate(#[trigger] visited[i]) is Some,
        ensures
            visited.len() <= self.token_count(),
    {
        assert forall|i: int| 0 <= i < visited.len() implies all_keys(self.collections).contains(
            #[trigger] visited[i],
        ) by {
            self.lemma_located_is_stored(visited[i]);
        }
        lemma_distinct_within(visited, all_keys(self.collections));
    }

    /// `lookup` succeeds only on located keys.
    pub proof fn lemma_lookup_located(self, key: TokenKey)
        requires
            self.lookup(key) is Ok,
        ensures
            self.locate(key) is Some,
    {
    }
}

impl<V> TokensView<V> {
    /// The collections after token `ti` of collection `ci` becomes an alias
    /// of `target` in every mode of that collection (its values in other
    /// modes stay).
    pub open spec fn aliased(self, ci: int, ti: int, target: TokenRef) -> Seq<CollectionView<V>> {
        let oc = self.collections[ci];
        let ot = oc.tokens[ti];
        self.collections.update(
            ci,
            CollectionView {
                id: oc.id,
                name: oc.name,
                modes: oc.modes,
                default_mode: oc.default_mode,
                tokens: oc.tokens.update(
                    ti,
                    TokenView {
                        id: ot.id,
                        name: ot.name,
                        group: ot.group,
                        values: ot.values.union_prefer_right(
                            DesignTokens::<V>::alias_values(oc.modes, target),
                        ),
                    },
                ),
            },
        )
    }

    /// Whether the default mode of collection `cid`, and its active mode when
    /// one is set, are among the collection's modes.
    pub open spec fn modes_in_place(self, cid: CollectionId) -> bool {
        match first_index(collection_ids(self.collections), cid) {
            Some(ci) => {
                let col = self.collections[ci];
                &&& mode_ids(col.modes).contains(col.default_mode)
                &&& self.active_modes.contains_key(cid) ==> mode_ids(col.modes).contains(
                    self.active_modes[cid],
                )
            },
            None => true,
        }
    }

    /// Resolution from `k` is the same whether or not the aliased token `a`
    /// counts as visited, as long as its target `t` does: a chain that
    /// reaches `a` comes back to `t` in the next step.
    proof fn lemma_resolve_past_alias(
        self,
        a: TokenKey,
        t: TokenKey,
        k: TokenKey,
        v1: Seq<TokenKey>,
        v2: Seq<TokenKey>,
        f1: nat,
        f2: nat,
    )
        requires
            self.lookup(a) == Ok::<TokenResolve<V>, TokenError>(
                TokenResolve::Alias(TokenRef { collection_id: t.0, token_id: t.1 }),
            ),
            v1.contains(t),
            !v1.contains(a),
            forall|x: TokenKey| #[trigger] v2.contains(x) <==> (v1.contains(x) || x == a),
            v1.no_duplicates(),
            v2.no_duplicates(),
            forall|i: int| 0 <= i < v1.len() ==> self.locate(#[trigger] v1[i]) is Some,
            forall|i: int| 0 <= i < v2.len() ==> self.locate(#[trigger] v2[i]) is Some,
            f1 + v1.len() >= self.token_count() + 1,
            f2 + v2.len() >= self.token_count() + 1,
        ensures
            self.resolve_from(k, v1, f1) == self.resolve_from(k, v2, f2),
        decreases f1,
    {
        self.lemma_visited_bounded(v1);
        self.lemma_visited_bounded(v2);
        self.lemma_lookup_located(a);
        if v1.contains(k) {
            assert(v2.contains(k));
            assert(self.resolve_from(k, v1, f1) == Err::<V, TokenError>(TokenError::CyclicAlias));
            assert(self.resolve_from(k, v2, f2) == Err::<V, TokenError>(TokenError::CyclicAlias));
        } else if k == a {
            assert(v2.contains(a));
            assert(self.resolve_from(k, v2, f2) == Err::<V, TokenError>(TokenError::CyclicAlias));
            let v3 = v1.push(a);
            assert forall|i: int, j: int| 0 <= i < v3.len() && 0 <= j < v3.len() && i != j implies v3[i]
                != v3[j] by {
                if i == v1.len() as int {
                    assert(v1[j] == v3[j]);
                } else if j == v1.len() as int {
                    assert(v1[i] == v3[i]);
                }
            }
            assert forall|i: int| 0 <= i < v3.len() implies self.locate(#[trigger] v3[i]) is Some by {
                if i < v1.len() {
                    assert(v3[i] == v1[i]);
                }
            }
            self.lemma_visited_bounded(v3);
            assert(v3.contains(t)) by {
                let i = choose|i: int| 0 <= i < v1.len() && v1[i] == t;
                assert(v3[i] == t);
            }
            assert(self.resolve_from(t, v3, (f1 - 1) as nat) == Err::<V, TokenError>(
                TokenError::CyclicAlias,
            ));
            assert(self.resolve_from(k, v1, f1) == self.resolve_from(t, v3, (f1 - 1) as nat));
        } else {
            assert(!v2.contains(k));
            match self.lookup(k) {
                Ok(TokenResolve::Alias(r)) => {
                    self.lemma_lookup_located(k);
                    let w1 = v1.push(k);
                    let w2 = v2.push(k);
                    assert forall|i: int, j: int| 0 <= i < w1.len() && 0 <= j < w1.len() && i != j implies w1[i]
                        != w1[j] by {
                        if i == v1.len() as int {
                            assert(v1[j] == w1[j]);
                        } else if j == v1.len() as int {
                            assert(v1[i] == w1[i]);
                        }
                    }
                    assert forall|i: int, j: int| 0 <= i < w2.len() && 0 <= j < w2.len() && i != j implies w2[i]
                        != w2[j] by {
                        if i == v2.len() as int {
                            assert(v2[j] == w2[j]);
                        } else if j == v2.len() as int {
                            assert(v2[i] == w2[i]);
                        }
                    }
                    assert forall|i: int| 0 <= i < w1.len() implies self.locate(#[trigger] w1[i]) is Some by {
                        if i < v1.len() {
                            assert(w1[i] == v1[i]);
                        }
                    }
                    assert forall|i: int| 0 <= i < w2.len() implies self.locate(#[trigger] w2[i]) is Some by {
                        if i < v2.len() {
                            assert(w2[i] == v2[i]);
                        }
                    }
                    assert(w1.contains(t)) by {
                        let i = choose|i: int| 0 <= i < v1.len() && v1[i] == t;
                        assert(w1[i] == t);
                    }
                    assert forall|x: TokenKey| #[trigger] w2.contains(x) <==> (w1.contains(x) || x == a) by {
                        if w2.contains(x) {
                            let i = choose|i: int| 0 <= i < w2.len() && w2[i] == x;
                            if i < v2.len() {
                                assert(v2.contains(x)) by {
                                    assert(v2[i] == x);
                                }
                                if v1.contains(x) {
                                    let j = choose|j: int| 0 <= j < v1.len() && v1[j] == x;
                                    assert(w1[j] == x);
                                }
                            } else {
                                assert(w1[v1.len() as int] == x);
                            }
                        }
                        if w1.contains(x) {
                            let i = choose|i: int| 0 <= i < w1.len() && w1[i] == x;
                            if i < v1.len() {
                                assert(v1.contains(x)) by {
                                    assert(v1[i] == x);
                                }
                                let j = choose|j: int| 0 <= j < v2.len() && v2[j] == x;
                                assert(w2[j] == x);
                            } else {
                                assert(w2[v2.len() as int] == x);
                            }
                        }
                        if x == a {
                            let j = choose|j: int| 0 <= j < v2.len() && v2[j] == a;
                            assert(w2[j] == x);
                        }
                    }
                    assert(!w1.contains(a)) by {
                        if w1.contains(a) {
                            let i = choose|i: int| 0 <= i < w1.len() && w1[i] == a;
                            if i < v1.len() {
                                assert(v1[i] == a);
                            }
                        }
                    }
                    self.lemma_resolve_past_alias(
                        a,
                        t,
                        (r.collection_id, r.token_id),
                        w1,
                        w2,
                        (f1 - 1) as nat,
                        (f2 - 1) as nat,
                    );
                    assert(self.resolve_from(k, v1, f1) == self.resolve_from(
                        (r.collection_id, r.token_id),
                        w1,
                        (f1 - 1) as nat,
                    ));
                    assert(self.resolve_from(k, v2, f2) == self.resolve_from(
                        (r.collection_id, r.token_id),
                        w2,
                        (f2 - 1) as nat,
                    ));
                },
                _ => {
                    assert(self.resolve_from(k, v1, f1) == self.resolve_from(k, v2, f2));
                },
            }
        }
    }

    /// Law: a token that stands for an alias (in the mode its resolution
    /// reads) resolves exactly as the alias's target, whether to a value or
    /// to an error.
    pub proof fn law_alias_resolves_as_target(self, key: TokenKey, target: TokenRef)
        requires
            self.lookup(key) == Ok::<TokenResolve<V>, TokenError>(TokenResolve::Alias(target)),
        ensures
            self.resolved(key) == self.resolved((target.collection_id, target.token_id)),
    {
        let t = (target.collection_id, target.token_id);
        let n = self.token_count();
        self.lemma_lookup_located(key);
        self.lemma_visited_bounded(seq![key]);
        if t != key {
            assert(!Seq::<TokenKey>::empty().contains(key));
            assert(!Seq::<TokenKey>::empty().contains(t));
            assert(Seq::<TokenKey>::empty().push(key) =~= seq![key]);
            assert(self.resolved(key) == self.resolve_from(t, seq![key], n));
            assert(!seq![key].contains(t)) by {
                if seq![key].contains(t) {
                    let i = choose|i: int| 0 <= i < 1 && seq![key][i] == t;
                }
            }
            match self.lookup(t) {
                Ok(TokenResolve::Alias(r)) => {
                    self.lemma_lookup_located(t);
                    let v1 = seq![t];
                    let v2 = seq![key, t];
                    assert(Seq::<TokenKey>::empty().push(t) =~= v1);
                    assert(seq![key].push(t) =~= v2);
                    assert(v1.contains(t)) by {
                        assert(v1[0] == t);
                    }
                    assert(!v1.contains(key)) by {
                        if v1.contains(key) {
                            let i = choose|i: int| 0 <= i < 1 && v1[i] == key;
                        }
                    }
                    assert forall|x: TokenKey| #[trigger] v2.contains(x) <==> (v1.contains(x) || x == key) by {
                        if v2.contains(x) {
                            let i = choose|i: int| 0 <= i < 2 && v2[i] == x;
                            if i == 1 {
                                assert(v1[0] == x);
                            }
                        }
                        if v1.contains(x) {
                            let i = choose|i: int| 0 <= i < 1 && v1[i] == x;
                            assert(v2[1] == x);
                        }
                        if x == key {
                            assert(v2[0] == x);
                        }
                    }
                    assert(v2.no_duplicates());
                    self.lemma_visited_bounded(v2);
                    self.lemma_resolve_past_alias(
                        key,
                        t,
                        (r.collection_id, r.token_id),
                        v1,
                        v2,
                        n,
                        (n - 1) as nat,
                    );
                },
                _ => {},
            }
        }
    }

    /// After `set_alias` makes stored token `key` an alias of `target`, the
    /// token's lookup in the mode its resolution reads is that alias, when
    /// its collection's default mode and active mode (if any) are among the
    /// collection's modes.
    proof fn lemma_aliased_lookup(self, key: TokenKey, target: TokenRef)
        requires
            self.locate(key) is Some,
            self.modes_in_place(key.0),
        ensures
            ({
                let after = self.with_alias(key, target);
                after.lookup(key) == Ok::<TokenResolve<V>, TokenError>(TokenResolve::Alias(target))
            }),
    {
        let (ci, ti) = self.locate(key)->0;
        let after = self.with_alias(key, target);
        lemma_index_from(collection_ids(self.collections), key.0, 0);
        lemma_index_from(token_ids(self.collections[ci].tokens), key.1, 0);
        assert(collection_ids(after.collections) =~= collection_ids(self.collections));
        assert(token_ids(after.collections[ci].tokens) =~= token_ids(self.collections[ci].tokens));
    }

    /// The token system with the collections after `set_alias` makes
    /// stored token `key` an alias of `target`.
    pub open spec fn with_alias(self, key: TokenKey, target: TokenRef) -> TokensView<V> {
        let (ci, ti) = self.locate(key)->0;
        TokensView {
            collections: self.aliased(ci, ti, target),
            active_modes: self.active_modes,
            next_collection_id: self.next_collection_id,
            next_token_id: self.next_token_id,
            next_mode_id: self.next_mode_id,
        }
    }

    /// Making `key` an alias changes no identifier, so the stored keys, the
    /// place of every key, and the default-mode lookup of every other key
    /// stay as they were.
    proof fn lemma_with_alias_frame(self, key: TokenKey, target: TokenRef)
        requires
            self.locate(key) is Some,
        ensures
            ({
                let after = self.with_alias(key, target);
                &&& after.token_count() == self.token_count()
                &&& forall|x: TokenKey| #[trigger] after.locate(x) == self.locate(x)
                &&& forall|x: TokenKey| x != key ==> #[trigger] after.default_lookup(x)
                    == self.default_lookup(x)
            }),
    {
        let (ci, ti) = self.locate(key)->0;
        let after = self.with_alias(key, target);
        lemma_index_from(collection_ids(self.collections), key.0, 0);
        lemma_index_from(token_ids(self.collections[ci].tokens), key.1, 0);
        assert(collection_ids(after.collections) =~= collection_ids(self.collections));
        assert forall|c: int| 0 <= c < self.collections.len() implies #[trigger] token_ids(
            after.collections[c].tokens,
        ) == token_ids(self.collections[c].tokens) by {
            if c == ci {
                assert(token_ids(after.collections[c].tokens) =~= token_ids(
                    self.collections[c].tokens,
                ));
            }
        }
        lemma_all_keys_same_ids(after.collections, self.collections);
        assert forall|x: TokenKey| #[trigger] after.locate(x) == self.locate(x) by {
            match first_index(collection_ids(self.collections), x.0) {
                Some(cx) => {
                    lemma_index_from(collection_ids(self.collections), x.0, 0);
                    assert(token_ids(after.collections[cx].tokens) == token_ids(
                        self.collections[cx].tokens,
                    ));
                },
                None => {},
            }
        }
        assert forall|x: TokenKey| x != key implies #[trigger] after.default_lookup(x)
            == self.default_lookup(x) by {
            assert(after.locate(x) == self.locate(x));
            match self.locate(x) {
                Some((cx, tx)) => {
                    lemma_index_from(collection_ids(self.collections), x.0, 0);
                    lemma_index_from(token_ids(self.collections[cx].tokens), x.1, 0);
                    if cx == ci && tx == ti {
                        assert(x.0 == self.collections[ci].id);
                        assert(x.1 == self.collections[ci].tokens[ti].id);
                        assert(key.0 == self.collections[ci].id);
                        assert(key.1 == self.collections[ci].tokens[ti].id);
                    } else if cx == ci {
                        assert(after.collections[cx].tokens[tx] == self.collections[cx].tokens[tx]);
                        assert(after.collections[cx].default_mode == self.collections[cx].default_mode);
                    } else {
                        assert(after.collections[cx] == self.collections[cx]);
                    }
                },
                None => {},
            }
        }
    }

    /// When the default-mode chain from `cur` does not reach `key` before
    /// the alias is set, it does not after: the chain never passes the one
    /// token that changed.
    proof fn lemma_chain_unreached(
        self,
        key: TokenKey,
        target: TokenRef,
        cur: TokenKey,
        visited: Seq<TokenKey>,
        fuel: nat,
    )
        requires
            self.locate(key) is Some,
            !self.chain_reaches(key, cur, visited, fuel),
        ensures
            !self.with_alias(key, target).chain_reaches(key, cur, visited, fuel),
        decreases fuel,
    {
        let after = self.with_alias(key, target);
        self.lemma_with_alias_frame(key, target);
        if fuel > 0 && cur != key && !visited.contains(cur) {
            assert(after.default_lookup(cur) == self.default_lookup(cur));
            match self.default_lookup(cur) {
                Some(TokenResolve::Alias(r)) => {
                    self.lemma_chain_unreached(
                        key,
                        target,
                        (r.collection_id, r.token_id),
                        visited.push(cur),
                        (fuel - 1) as nat,
                    );
                },
                _ => {},
            }
        }
    }

    /// Law: `set_alias` closes no cycle through the token it changes: when
    /// it accepts making stored token `key` an alias of `target` (the
    /// target's default-mode chain does not lead back to `key`), the
    /// target's chain still does not lead back to `key` afterwards.
    pub proof fn law_set_alias_closes_no_cycle(self, key: TokenKey, target: TokenRef)
        requires
            self.locate(key) is Some,
            !self.would_cycle(key, (target.collection_id, target.token_id)),
        ensures
            !self.with_alias(key, target).would_cycle(key, (target.collection_id, target.token_id)),
    {
        self.lemma_with_alias_frame(key, target);
        self.lemma_chain_unreached(
            key,
            target,
            (target.collection_id, target.token_id),
            Seq::empty(),
            self.token_count() + 1,
        );
    }

    /// Law: once `set_alias` has made stored token `key` an alias of
    /// `target`, the token resolves exactly as its target does, provided its
    /// collection's default mode and active mode (if any) are among the
    /// collection's modes.
    pub proof fn law_set_alias_resolves_as_target(self, key: TokenKey, target: TokenRef)
        requires
            self.locate(key) is Some,
            self.modes_in_place(key.0),
        ensures
            ({
                let after = self.with_alias(key, target);
                after.resolved(key) == after.resolved((target.collection_id, target.token_id))
            }),
    {
        let (ci, ti) = self.locate(key)->0;
        let after = self.with_alias(key, target);
        self.lemma_aliased_lookup(key, target);
        after.law_alias_resolves_as_target(key, target);
    }
}

impl<V> TokensView<V> {
    /// Law: a token that holds a value in the active mode of its collection
    /// resolves to that value, whatever it holds in the default mode.
    pub proof fn law_active_mode_value_wins(self, key: TokenKey, v: V)
        requires
            self.locate(key) matches Some((ci, ti)) && self.active_modes.contains_key(key.0)
                && self.collections[ci].tokens[ti].values.contains_key(self.active_modes[key.0])
                && self.collections[ci].tokens[ti].values[self.active_modes[key.0]]
                == TokenResolve::<V>::Direct(v),
        ensures
            self.resolved(key) == Ok::<V, TokenError>(v),
    {
        assert(!Seq::<TokenKey>::empty().contains(key));
    }

    /// Key `a` stands, in the default mode of its collection, for an alias
    /// of key `b`.
    pub open spec fn alias_step(self, a: TokenKey, b: TokenKey) -> bool {
        self.default_lookup(a) matches Some(TokenResolve::Alias(r)) && (r.collection_id, r.token_id)
            == b
    }

    /// `path` follows default-mode aliases: each key but the last is an alias
    /// of the next one.
    pub open spec fn is_alias_path(self, path: Seq<TokenKey>) -> bool {
        &&& path.len() >= 1
        &&& forall|i: int| 0 <= i < path.len() - 1 ==> #[trigger] self.alias_step(path[i], path[i + 1])
    }

    /// Law: making `from` an alias of `to` closes a cycle whenever the
    /// default-mode alias chain from `to` reaches `from`, after any number of
    /// steps.
    pub proof fn law_alias_chain_back_is_cycle(self, from: TokenKey, to: TokenKey, path: Seq<TokenKey>)
        requires
            self.is_alias_path(path),
            path[0] == to,
            path.last() == from,
        ensures
            self.would_cycle(from, to),
    {
        let q = self.lemma_simple_alias_path(path);
        let n = q.len();
        assert forall|i: int| 0 <= i < q.take(n - 1).len() implies self.locate(
            #[trigger] q.take(n - 1)[i],
        ) is Some by {
            assert(q.take(n - 1)[i] == q[i]);
            assert(self.alias_step(q[i], q[i + 1]));
        }
        assert(q.take(n - 1).no_duplicates()) by {
            assert forall|i: int, j: int|
                0 <= i < n - 1 && 0 <= j < n - 1 && i != j implies #[trigger] q.take(n - 1)[i]
                != #[trigger] q.take(n - 1)[j] by {
                assert(q.take(n - 1)[i] == q[i]);
                assert(q.take(n - 1)[j] == q[j]);
            }
        }
        self.lemma_visited_bounded(q.take(n - 1));
        self.lemma_chain_along(from, q, 0);
        assert(q.take(0) =~= Seq::<TokenKey>::empty());
    }

    /// An alias path can be shortened to one without repeated keys, with the
    /// same ends.
    proof fn lemma_simple_alias_path(self, path: Seq<TokenKey>) -> (q: Seq<TokenKey>)
        requires
            self.is_alias_path(path),
        ensures
            self.is_alias_path(q),
            q.no_duplicates(),
            q[0] == path[0],
            q.last() == path.last(),
        decreases path.len(),
    {
        if path.no_duplicates() {
            path
        } else {
            let (i, j) = choose|i: int, j: int|
                0 <= i < path.len() && 0 <= j < path.len() && i != j && path[i] == path[j];
            let a = if i < j {
                i
            } else {
                j
            };
            let b = if i < j {
                j
            } else {
                i
            };
            let q1 = path.take(a) + path.skip(b);
            assert(q1.len() == path.len() - (b - a));
            assert forall|k: int| 0 <= k < q1.len() - 1 implies #[trigger] self.alias_step(
                q1[k],
                q1[k + 1],
            ) by {
                if k < a - 1 {
                    assert(self.alias_step(path[k], path[k + 1]));
                    assert(q1[k] == path[k]);
                    assert(q1[k + 1] == path[k + 1]);
                } else if k == a - 1 {
                    assert(q1[k] == path[k]);
                    assert(q1[k + 1] == path[b]);
                    assert(path[b] == path[a]);
                    assert(self.alias_step(path[k], path[k + 1]));
                } else {
                    assert(q1[k] == path[k - a + b]);
                    assert(q1[k + 1] == path[k + 1 - a + b]);
                    assert(self.alias_step(path[k - a + b], path[k - a + b + 1]));
                }
            }
            if a == 0 {
                assert(q1[0] == path[b]);
            } else {
                assert(q1[0] == path[0]);
            }
            assert(q1.last() == path.last());
            self.lemma_simple_alias_path(q1)
        }
    }

    /// Following a repetition-free alias path ending at `from` from its
    /// `i`-th key, with the keys before it passed, reaches `from`.
    proof fn lemma_chain_along(self, from: TokenKey, q: Seq<TokenKey>, i: int)
        requires
            self.is_alias_path(q),
            q.no_duplicates(),
            q.last() == from,
            0 <= i < q.len(),
            q.len() - 1 <= self.token_count(),
        ensures
            self.chain_reaches(from, q[i], q.take(i), (self.token_count() + 1 - i) as nat),
        decreases q.len() - i,
    {
        if i < q.len() - 1 {
            assert(q[i] != from);
            assert(!q.take(i).contains(q[i])) by {
                if q.take(i).contains(q[i]) {
                    let j = choose|j: int| 0 <= j < q.take(i).len() && q.take(i)[j] == q[i];
                    assert(q[j] == q[i]);
                }
            }
            assert(self.alias_step(q[i], q[i + 1]));
            assert(q.take(i).push(q[i]) =~= q.take(i + 1));
            self.lemma_chain_along(from, q, i + 1);
        }
    }
}

// ─── Executable operations ───

/// Whether `key` occurs in `keys`.
fn contains_key(keys: &Vec<TokenKey>, key: TokenKey) -> (r: bool)
    ensures
        r == keys@.contains(key),
{
    let mut i: usize = 0;
    while i < keys.len()
        invariant
            0 <= i <= keys.len(),
            forall|j: int| 0 <= j < i ==> keys@[j] != key,
        decreases keys.len() - i,
    {
        if keys[i].0 == key.0 && keys[i].1 == key.1 {
            return true;
        }
        i += 1;
    }
    false
}

impl<V> DesignTokens<V> {
    /// The model of the collections, item by item.
    proof fn lemma_view_collections(&self)
        ensures
            self@.collections.len() == self.collections@.len(),
            forall|i: int|
                0 <= i < self.collections@.len() ==> #[trigger] self@.collections[i]
                    == self.collections@[i]@,
            self@.active_modes == self.active_modes@,
    {
    }

    /// The collections, in order.
    pub fn collections(&self) -> (r: &Vec<TokenCollection<V>>)
        ensures
            r@.map_values(|c: TokenCollection<V>| c@) == self@.collections,
    {
        &self.collections
    }

    /// Empty token system with fresh identifier counters at zero.
    pub fn new() -> (r: Self)
        ensures
            r@.collections.len() == 0,
            r@.active_modes == Map::<CollectionId, ModeId>::empty(),
            r@.next_collection_id == 0,
            r@.next_token_id == 0,
            r@.next_mode_id == 0,
    {
        DesignTokens {
            collections: Vec::new(),
            active_modes: HashMap::new(),
            next_collection_id: 0,
            next_token_id: 0,
            next_mode_id: 0,
        }
    }

    /// Token system made of given collections and active modes, as read from
    /// a stored document; the identifier counters start at zero.
    pub fn from_parts(
        collections: Vec<TokenCollection<V>>,
        active_modes: HashMap<CollectionId, ModeId>,
    ) -> (r: Self)
        ensures
            r@.collections == collections@.map_values(|c: TokenCollection<V>| c@),
            r@.active_modes == active_modes@,
            r@.next_collection_id == 0,
            r@.next_token_id == 0,
            r@.next_mode_id == 0,
    {
        DesignTokens {
            collections,
            active_modes,
            next_collection_id: 0,
            next_token_id: 0,
            next_mode_id: 0,
        }
    }

    /// Position of the first collection with identifier `cid`.
    fn find_collection(&self, cid: CollectionId) -> (r: Option<usize>)
        ensures
            match r {
                Some(i) => i < self@.collections.len() && first_index(
                    collection_ids(self@.collections),
                    cid,
                ) == Some(i as int),
                None => first_index(collection_ids(self@.collections), cid) is None,
            },
    {
        let ghost ids = collection_ids(self@.collections);
        proof {
            self.lemma_view_collections();
        }
        let mut i: usize = 0;
        while i < self.collections.len()
            invariant
                0 <= i <= self.collections.len(),
                ids == collection_ids(self@.collections),
                ids.len() == self.collections@.len(),
                self@.collections.len() == self.collections@.len(),
                forall|j: int| 0 <= j < ids.len() ==> ids[j] == self.collections@[j].id,
                first_index(ids, cid) == index_from(ids, cid, i as int),
            decreases self.collections.len() - i,
        {
            if self.collections[i].id == cid {
                assert(ids[i as int] == cid);
                return Some(i);
            }
            i += 1;
        }
        None
    }

    /// Position of the first token with identifier `tid` in collection `ci`.
    fn find_token(&self, ci: usize, tid: TokenId) -> (r: Option<usize>)
        requires
            ci < self@.collections.len(),
        ensures
            match r {
                Some(i) => i < self@.collections[ci as int].tokens.len() && first_index(
                    token_ids(self@.collections[ci as int].tokens),
                    tid,
                ) == Some(i as int),
                None => first_index(token_ids(self@.collections[ci as int].tokens), tid) is None,
            },
    {
        proof {
            self.lemma_view_collections();
        }
        let col = &self.collections[ci];
        let ghost ids = token_ids(self@.collections[ci as int].tokens);
        let mut i: usize = 0;
        while i < col.tokens.len()
            invariant
                0 <= i <= col.tokens.len(),
                ids == token_ids(self@.collections[ci as int].tokens),
                ids.len() == col.tokens@.len(),
                ci < self@.collections.len(),
                self@.collections[ci as int].tokens.len() == col.tokens@.len(),
                forall|j: int| 0 <= j < ids.len() ==> ids[j] == col.tokens@[j].id,
                first_index(ids, tid) == index_from(ids, tid, i as int),
            decreases col.tokens.len() - i,
        {
            if col.tokens[i].id == tid {
                assert(ids[i as int] == tid);
                return Some(i);
            }
            i += 1;
        }
        None
    }

    /// Executable `lookup`.
    fn lookup(&self, key: TokenKey) -> (r: Result<&TokenResolve<V>, TokenError>)
        ensures
            match r {
                Ok(v) => self@.lookup(key) == Ok::<TokenResolve<V>, TokenError>(*v),
                Err(e) => self@.lookup(key) == Err::<TokenResolve<V>, TokenError>(e),
            },
    {
        proof {
            self.lemma_view_collections();
        }
        let ci = match self.find_collection(key.0) {
            Some(ci) => ci,
            None => return Err(TokenError::CollectionNotFound),
        };
        let ti = match self.find_token(ci, key.1) {
            Some(ti) => ti,
            None => return Err(TokenError::NotFound),
        };
        let col = &self.collections[ci];
        let tok = &col.tokens[ti];
        assert(self@.collections[ci as int].tokens[ti as int] == tok@);
        if let Some(m) = self.active_modes.get(&key.0) {
            if let Some(v) = tok.values.get(m) {
                return Ok(v);
            }
        }
        match tok.values.get(&col.default_mode) {
            Some(v) => Ok(v),
            None => Err(TokenError::MissingValue),
        }
    }

    /// Executable `default_lookup`.
    fn default_lookup(&self, key: TokenKey) -> (r: Option<&TokenResolve<V>>)
        ensures
            match r {
                Some(v) => self@.default_lookup(key) == Some(*v),
                None => self@.default_lookup(key) is None,
            },
    {
        proof {
            self.lemma_view_collections();
        }
        let ci = match self.find_collection(key.0) {
            Some(ci) => ci,
            None => return None,
        };
        let ti = match self.find_token(ci, key.1) {
            Some(ti) => ti,
            None => return None,
        };
        let col = &self.collections[ci];
        let tok = &col.tokens[ti];
        assert(self@.collections[ci as int].tokens[ti as int] == tok@);
        tok.values.get(&col.default_mode)
    }

    /// Resolve a token to its final value, following aliases and respecting
    /// active modes (falling back to each collection's default mode).
    pub fn resolve(&self, collection_id: CollectionId, token_id: TokenId) -> (r: Result<
        &V,
        TokenError,
    >)
        ensures
            match r {
                Ok(v) => self@.resolved((collection_id, token_id)) == Ok::<V, TokenError>(*v),
                Err(e) => self@.resolved((collection_id, token_id)) == Err::<V, TokenError>(e),
            },
    {
        let ghost model = self@;
        let ghost n = model.token_count();
        let mut visited: Vec<TokenKey> = Vec::new();
        let mut cur: TokenKey = (collection_id, token_id);
        loop
            invariant
                model == self@,
                n == model.token_count(),
                visited@.no_duplicates(),
                forall|i: int| 0 <= i < visited@.len() ==> model.locate(#[trigger] visited@[i]) is Some,
                visited@.len() <= n,
                model.resolved((collection_id, token_id)) == model.resolve_from(
                    cur,
                    visited@,
                    (n + 1 - visited@.len()) as nat,
                ),
            decreases n - visited@.len(),
        {
            if contains_key(&visited, cur) {
                return Err(TokenError::CyclicAlias);
            }
            let step = self.lookup(cur);
            match step {
                Err(e) => {
                    return Err(e);
                },
                Ok(TokenResolve::Direct(v)) => {
                    return Ok(v);
                },
                Ok(TokenResolve::Alias(r)) => {
                    proof {
                        model.lemma_lookup_located(cur);
                    }
                    let ghost old_visited = visited@;
                    visited.push(cur);
                    proof {
                        assert(visited@ == old_visited.push(cur));
                        assert forall|i: int, j: int|
                            0 <= i < visited@.len() && 0 <= j < visited@.len() && i != j
                            implies visited@[i] != visited@[j] by {
                            if i == old_visited.len() as int {
                                assert(!old_visited.contains(cur));
                                assert(old_visited[j] == visited@[j]);
                            } else if j == old_visited.len() as int {
                                assert(!old_visited.contains(cur));
                                assert(old_visited[i] == visited@[i]);
                            }
                        }
                        model.lemma_visited_bounded(visited@);
                    }
                    cur = (r.collection_id, r.token_id);
                },
            }
        }
    }

    /// Whether making `from` an alias of `to` would create a cycle, judged on
    /// the default modes.
    fn would_create_cycle(
        &self,
        from_collection: CollectionId,
        from_token: TokenId,
        to_collection: CollectionId,
        to_token: TokenId,
    ) -> (r: bool)
        ensures
            r == self@.would_cycle((from_collection, from_token), (to_collection, to_token)),
    {
        let ghost model = self@;
        let ghost n = model.token_count();
        let ghost target: TokenKey = (from_collection, from_token);
        let mut visited: Vec<TokenKey> = Vec::new();
        let mut cur: TokenKey = (to_collection, to_token);
        loop
            invariant
                model == self@,
                n == model.token_count(),
                target == (from_collection, from_token),
                visited@.no_duplicates(),
                forall|i: int| 0 <= i < visited@.len() ==> model.locate(#[trigger] visited@[i]) is Some,
                visited@.len() <= n,
                model.would_cycle(target, (to_collection, to_token)) == model.chain_reaches(
                    target,
                    cur,
                    visited@,
                    (n + 1 - visited@.len()) as nat,
                ),
            decreases n - visited@.len(),
        {
            if cur.0 == from_collection && cur.1 == from_token {
                return true;
            }
            if contains_key(&visited, cur) {
                return false;
            }
            match self.default_lookup(cur) {
                Some(TokenResolve::Alias(r)) => {
                    let ghost old_visited = visited@;
                    visited.push(cur);
                    proof {
                        assert(visited@ == old_visited.push(cur));
                        assert forall|i: int, j: int|
                            0 <= i < visited@.len() && 0 <= j < visited@.len() && i != j
                            implies visited@[i] != visited@[j] by {
                            if i == old_visited.len() as int {
                                assert(!old_visited.contains(cur));
                                assert(old_visited[j] == visited@[j]);
                            } else if j == old_visited.len() as int {
                                assert(!old_visited.contains(cur));
                                assert(old_visited[i] == visited@[i]);
                            }
                        }
                        model.lemma_visited_bounded(visited@);
                    }
                    cur = (r.collection_id, r.token_id);
                },
                _ => {
                    return false;
                },
            }
        }
    }

    /// Add a collection with the given name and one mode per given mode name;
    /// the first mode is the default (mode 0 when there is none). Returns the
    /// new collection's identifier.
    pub fn add_collection(&mut self, name: &str, mode_names: Vec<&str>) -> (r: CollectionId)
        requires
            old(self)@.next_collection_id < u32::MAX,
            old(self)@.next_mode_id + mode_names@.len() <= u32::MAX,
        ensures
            r == old(self)@.next_collection_id,
            final(self)@.next_collection_id == old(self)@.next_collection_id + 1,
            final(self)@.next_mode_id == old(self)@.next_mode_id + mode_names@.len(),
            final(self)@.next_token_id == old(self)@.next_token_id,
            final(self)@.active_modes == old(self)@.active_modes,
            final(self)@.collections == old(self)@.collections.push(
                CollectionView {
                    id: r,
                    name: name@,
                    modes: Seq::new(
                        mode_names@.len(),
                        |i: int|
                            ModeView {
                                id: (old(self)@.next_mode_id + i) as ModeId,
                                name: mode_names@[i]@,
                            },
                    ),
                    default_mode: if mode_names@.len() > 0 {
                        old(self)@.next_mode_id
                    } else {
                        0
                    },
                    tokens: Seq::empty(),
                },
            ),
    {
        let col_id = self.next_collection_id;
        self.next_collection_id = self.next_collection_id + 1;
        let ghost first_mode = self.next_mode_id;
        let mut modes: Vec<Mode> = Vec::new();
        let mut i: usize = 0;
        while i < mode_names.len()
            invariant
                0 <= i <= mode_names@.len(),
                self.next_mode_id == first_mode + i,
                first_mode == old(self)@.next_mode_id,
                first_mode + mode_names@.len() <= u32::MAX,
                col_id == old(self)@.next_collection_id,
                self.next_collection_id == col_id + 1,
                self.next_token_id == old(self)@.next_token_id,
                self.collections == old(self).collections,
                self.active_modes == old(self).active_modes,
                modes@.len() == i,
                forall|k: int|
                    0 <= k < i ==> (#[trigger] modes@[k]).id == first_mode + k && modes@[k].name@
                        == mode_names@[k]@,
            decreases mode_names@.len() - i,
        {
            let id = self.next_mode_id;
            self.next_mode_id = self.next_mode_id + 1;
            modes.push(Mode { id, name: String::from_str(mode_names[i]) });
            i += 1;
        }
        let default_mode = if modes.len() > 0 {
            modes[0].id
        } else {
            0
        };
        let ghost old_cols = self@.collections;
        let col = TokenCollection {
            id: col_id,
            name: String::from_str(name),
            modes,
            default_mode,
            tokens: Vec::new(),
        };
        assert(col@.modes =~= Seq::new(
            mode_names@.len(),
            |i: int| ModeView { id: (first_mode + i) as ModeId, name: mode_names@[i]@ },
        ));
        assert(col@.tokens =~= Seq::<TokenView<V>>::empty());
        self.collections.push(col);
        assert(self@.collections =~= old_cols.push(col@));
        assert(old_cols == old(self)@.collections);
        col_id
    }

    /// Add a token holding `value` in every mode of the collection (the
    /// token is dropped when no collection has that identifier). Returns the
    /// token's identifier, which is consumed either way.
    pub fn add_token(&mut self, collection_id: CollectionId, name: &str, value: V) -> (r: TokenId)
        where V: Clone
        requires
            old(self)@.next_token_id < u32::MAX,
        ensures
            r == old(self)@.next_token_id,
            final(self)@.next_token_id == old(self)@.next_token_id + 1,
            final(self)@.next_collection_id == old(self)@.next_collection_id,
            final(self)@.next_mode_id == old(self)@.next_mode_id,
            final(self)@.active_modes == old(self)@.active_modes,
            match first_index(collection_ids(old(self)@.collections), collection_id) {
                None => final(self)@.collections == old(self)@.collections,
                Some(ci) => {
                    let oc = old(self)@.collections[ci];
                    let nc = final(self)@.collections[ci];
                    let t = nc.tokens.last();
                    &&& final(self)@.collections == old(self)@.collections.update(ci, nc)
                    &&& nc.id == oc.id && nc.name == oc.name && nc.modes == oc.modes
                        && nc.default_mode == oc.default_mode
                    &&& nc.tokens == oc.tokens.push(t)
                    &&& t.id == r && t.name == name@ && t.group is None
                    &&& forall|m: ModeId| #[trigger]
                        t.values.contains_key(m) <==> mode_ids(oc.modes).contains(m)
                    &&& forall|m: ModeId| #[trigger]
                        t.values.contains_key(m) ==> (t.values[m] matches TokenResolve::Direct(w)
                            && cloned(value, w))
                },
            },
    {
        let tok_id = self.next_token_id;
        self.next_token_id = self.next_token_id + 1;
        proof {
            self.lemma_view_collections();
        }
        match self.find_collection(collection_id) {
            None => {},
            Some(ci) => {
                let ghost old_cols = self@.collections;
                let ghost oc = old_cols[ci as int];
                let mut values: HashMap<ModeId, TokenResolve<V>> = HashMap::new();
                let mut i: usize = 0;
                let n = self.collections[ci].modes.len();
                while i < n
                    invariant
                        0 <= i <= n,
                        ci < self.collections@.len(),
                        n == self.collections@[ci as int].modes@.len(),
                        oc == self.collections@[ci as int]@,
                        forall|m: ModeId| #[trigger]
                            values@.contains_key(m) <==> mode_ids(oc.modes).take(
                                i as int,
                            ).contains(m),
                        forall|m: ModeId| #[trigger]
                            values@.contains_key(m) ==> (values@[m] matches TokenResolve::Direct(
                                w,
                            ) && cloned(value, w)),
                    decreases n - i,
                {
                    let m = self.collections[ci].modes[i].id;
                    let v = value.clone();
                    values.insert(m, TokenResolve::Direct(v));
                    proof {
                        assert(mode_ids(oc.modes).take(i + 1) =~= mode_ids(oc.modes).take(
                            i as int,
                        ).push(m));
                    }
                    i += 1;
                }
                proof {
                    assert(mode_ids(oc.modes).take(n as int) =~= mode_ids(oc.modes));
                }
                let tok = Token { id: tok_id, name: String::from_str(name), group: None, values };
                self.collections[ci].tokens.push(tok);
                proof {
                    let nc = self.collections@[ci as int]@;
                    assert(nc.tokens =~= oc.tokens.push(tok@));
                    assert(self@.collections =~= old_cols.update(ci as int, nc));
                }
            },
        }
        tok_id
    }

    /// Add a token holding `value` in the given mode only (the token is
    /// dropped when no collection has that identifier). Returns the token's
    /// identifier, which is consumed either way.
    pub fn add_token_for_mode(
        &mut self,
        collection_id: CollectionId,
        name: &str,
        mode_id: ModeId,
        value: V,
    ) -> (r: TokenId)
        requires
            old(self)@.next_token_id < u32::MAX,
        ensures
            r == old(self)@.next_token_id,
            final(self)@.next_token_id == old(self)@.next_token_id + 1,
            final(self)@.next_collection_id == old(self)@.next_collection_id,
            final(self)@.next_mode_id == old(self)@.next_mode_id,
            final(self)@.active_modes == old(self)@.active_modes,
            match first_index(collection_ids(old(self)@.collections), collection_id) {
                None => final(self)@.collections == old(self)@.collections,
                Some(ci) => {
                    let oc = old(self)@.collections[ci];
                    final(self)@.collections == old(self)@.collections.update(
                        ci,
                        CollectionView {
                            id: oc.id,
                            name: oc.name,
                            modes: oc.modes,
                            default_mode: oc.default_mode,
                            tokens: oc.tokens.push(
                                TokenView {
                                    id: r,
                                    name: name@,
                                    group: None,
                                    values: map![mode_id => TokenResolve::Direct(value)],
                                },
                            ),
                        },
                    )
                },
            },
    {
        let tok_id = self.next_token_id;
        self.next_token_id = self.next_token_id + 1;
        proof {
            self.lemma_view_collections();
        }
        match self.find_collection(collection_id) {
            None => {},
            Some(ci) => {
                let ghost old_cols = self@.collections;
                let ghost oc = old_cols[ci as int];
                let mut values: HashMap<ModeId, TokenResolve<V>> = HashMap::new();
                values.insert(mode_id, TokenResolve::Direct(value));
                let tok = Token { id: tok_id, name: String::from_str(name), group: None, values };
                assert(tok@.values =~= map![mode_id => TokenResolve::Direct(value)]);
                self.collections[ci].tokens.push(tok);
                proof {
                    let nc = self.collections@[ci as int]@;
                    assert(nc.tokens =~= oc.tokens.push(tok@));
                    assert(self@.collections =~= old_cols.update(ci as int, nc));
                }
            },
        }
        tok_id
    }

    /// The values of an alias to `target` in every given mode.
    pub open spec fn alias_values(modes: Seq<ModeView>, target: TokenRef) -> Map<
        ModeId,
        TokenResolve<V>,
    > {
        Map::new(|m: ModeId| mode_ids(modes).contains(m), |m: ModeId| TokenResolve::Alias(target))
    }

    /// Add a token that is an alias of another token in every mode of the
    /// collection (dropped when no collection has that identifier). Returns
    /// the alias token's identifier, which is consumed either way.
    pub fn add_alias_token(
        &mut self,
        collection_id: CollectionId,
        name: &str,
        target_collection_id: CollectionId,
        target_token_id: TokenId,
    ) -> (r: TokenId)
        requires
            old(self)@.next_token_id < u32::MAX,
        ensures
            r == old(self)@.next_token_id,
            final(self)@.next_token_id == old(self)@.next_token_id + 1,
            final(self)@.next_collection_id == old(self)@.next_collection_id,
            final(self)@.next_mode_id == old(self)@.next_mode_id,
            final(self)@.active_modes == old(self)@.active_modes,
            match first_index(collection_ids(old(self)@.collections), collection_id) {
                None => final(self)@.collections == old(self)@.collections,
                Some(ci) => {
                    let oc = old(self)@.collections[ci];
                    final(self)@.collections == old(self)@.collections.update(
                        ci,
                        CollectionView {
                            id: oc.id,
                            name: oc.name,
                            modes: oc.modes,
                            default_mode: oc.default_mode,
                            tokens: oc.tokens.push(
                                TokenView {
                                    id: r,
                                    name: name@,
                                    group: None,
                                    values: Self::alias_values(
                                        oc.modes,
                                        TokenRef {
                                            collection_id: target_collection_id,
                                            token_id: target_token_id,
                                        },
                                    ),
                                },
                            ),
                        },
                    )
                },
            },
    {
        let tok_id = self.next_token_id;
        self.next_token_id = self.next_token_id + 1;
        proof {
            self.lemma_view_collections();
        }
        let target = TokenRef { collection_id: target_collection_id, token_id: target_token_id };
        match self.find_collection(collection_id) {
            None => {},
            Some(ci) => {
                let ghost old_cols = self@.collections;
                let ghost oc = old_cols[ci as int];
                let mut values: HashMap<ModeId, TokenResolve<V>> = HashMap::new();
                let mut i: usize = 0;
                let n = self.collections[ci].modes.len();
                while i < n
                    invariant
                        0 <= i <= n,
                        ci < self.collections@.len(),
                        n == self.collections@[ci as int].modes@.len(),
                        oc == self.collections@[ci as int]@,
                        values@ == Map::new(
                            |m: ModeId| mode_ids(oc.modes).take(i as int).contains(m),
                            |m: ModeId| TokenResolve::<V>::Alias(target),
                        ),
                    decreases n - i,
                {
                    let m = self.collections[ci].modes[i].id;
                    values.insert(m, TokenResolve::Alias(target));
                    proof {
                        assert(mode_ids(oc.modes).take(i + 1) =~= mode_ids(oc.modes).take(
                            i as int,
                        ).push(m));
                        assert(values@ =~= Map::new(
                            |m: ModeId| mode_ids(oc.modes).take(i + 1).contains(m),
                            |m: ModeId| TokenResolve::<V>::Alias(target),
                        ));
                    }
                    i += 1;
                }
                proof {
                    assert(mode_ids(oc.modes).take(n as int) =~= mode_ids(oc.modes));
                    assert(values@ =~= Self::alias_values(oc.modes, target));
                }
                let tok = Token { id: tok_id, name: String::from_str(name), group: None, values };
                self.collections[ci].tokens.push(tok);
                proof {
                    let nc = self.collections@[ci as int]@;
                    assert(nc.tokens =~= oc.tokens.push(tok@));
                    assert(self@.collections =~= old_cols.update(ci as int, nc));
                }
            },
        }
        tok_id
    }

    /// Make an existing token an alias of another token in every mode of its
    /// collection. Fails with `CyclicAlias`, changing nothing, when the
    /// target's default-mode alias chain leads back to the token, and with
    /// `NotFound` when the token is not stored.
    pub fn set_alias(
        &mut self,
        collection_id: CollectionId,
        token_id: TokenId,
        target_collection_id: CollectionId,
        target_token_id: TokenId,
    ) -> (r: Result<(), TokenError>)
        ensures
            final(self)@.next_token_id == old(self)@.next_token_id,
            final(self)@.next_collection_id == old(self)@.next_collection_id,
            final(self)@.next_mode_id == old(self)@.next_mode_id,
            final(self)@.active_modes == old(self)@.active_modes,
            old(self)@.would_cycle(
                (collection_id, token_id),
                (target_collection_id, target_token_id),
            ) ==> r == Err::<(), TokenError>(TokenError::CyclicAlias) && final(self)@.collections
                == old(self)@.collections,
            !old(self)@.would_cycle(
                (collection_id, token_id),
                (target_collection_id, target_token_id),
            ) ==> match old(self)@.locate((collection_id, token_id)) {
                None => r == Err::<(), TokenError>(TokenError::NotFound) && final(self)@.collections
                    == old(self)@.collections,
                Some((ci, ti)) => {
                    &&& r == Ok::<(), TokenError>(())
                    &&& final(self)@.collections == old(self)@.aliased(
                        ci,
                        ti,
                        TokenRef { collection_id: target_collection_id, token_id: target_token_id },
                    )
                },
            },
    {
        if self.would_create_cycle(collection_id, token_id, target_collection_id, target_token_id) {
            return Err(TokenError::CyclicAlias);
        }
        proof {
            self.lemma_view_collections();
        }
        let ci = match self.find_collection(collection_id) {
            Some(ci) => ci,
            None => return Err(TokenError::NotFound),
        };
        let ti = match self.find_token(ci, token_id) {
            Some(ti) => ti,
            None => return Err(TokenError::NotFound),
        };
        let ghost old_cols = self@.collections;
        let ghost oc = old_cols[ci as int];
        let ghost ot = oc.tokens[ti as int];
        let target = TokenRef { collection_id: target_collection_id, token_id: target_token_id };
        let mut mode_list: Vec<ModeId> = Vec::new();
        let n = self.collections[ci].modes.len();
        let mut i: usize = 0;
        while i < n
            invariant
                0 <= i <= n,
                ci < self.collections@.len(),
                n == self.collections@[ci as int].modes@.len(),
                oc == self.collections@[ci as int]@,
                mode_list@ == mode_ids(oc.modes).take(i as int),
            decreases n - i,
        {
            mode_list.push(self.collections[ci].modes[i].id);
            proof {
                assert(mode_list@ =~= mode_ids(oc.modes).take(i + 1));
            }
            i += 1;
        }
        proof {
            assert(mode_list@ =~= mode_ids(oc.modes));
        }
        let mut k: usize = 0;
        while k < mode_list.len()
            invariant
                0 <= k <= mode_list@.len(),
                mode_list@ == mode_ids(oc.modes),
                ci < self.collections@.len(),
                ti < self.collections@[ci as int].tokens@.len(),
                self.collections@.len() == old_cols.len(),
                forall|j: int|
                    0 <= j < old_cols.len() && j != ci ==> #[trigger] self.collections@[j]@
                        == old_cols[j],
                self.collections@[ci as int]@.id == oc.id,
                self.collections@[ci as int]@.name == oc.name,
                self.collections@[ci as int]@.modes == oc.modes,
                self.collections@[ci as int]@.default_mode == oc.default_mode,
                self.collections@[ci as int]@.tokens.len() == oc.tokens.len(),
                forall|j: int|
                    0 <= j < oc.tokens.len() && j != ti ==> #[trigger] self.collections@[ci as int]@.tokens[j]
                        == oc.tokens[j],
                self.collections@[ci as int]@.tokens[ti as int].id == ot.id,
                self.collections@[ci as int]@.tokens[ti as int].name == ot.name,
                self.collections@[ci as int]@.tokens[ti as int].group == ot.group,
                self.collections@[ci as int]@.tokens[ti as int].values == ot.values.union_prefer_right(
                    Map::new(
                        |m: ModeId| mode_list@.take(k as int).contains(m),
                        |m: ModeId| TokenResolve::<V>::Alias(target),
                    ),
                ),
                self@.next_token_id == old(self)@.next_token_id,
                self@.next_collection_id == old(self)@.next_collection_id,
                self@.next_mode_id == old(self)@.next_mode_id,
                self@.active_modes == old(self)@.active_modes,
            decreases mode_list@.len() - k,
        {
            let m = mode_list[k];
            let ghost before_cols = self.collections@;
            let ghost before = self.collections@[ci as int]@.tokens[ti as int].values;
            self.collections[ci].tokens[ti].values.insert(m, TokenResolve::Alias(target));
            proof {
                assert(self.collections@ == before_cols.update(ci as int, self.collections@[ci as int]));
                assert(self.collections@[ci as int].tokens@ == before_cols[ci as int].tokens@.update(
                    ti as int,
                    self.collections@[ci as int].tokens@[ti as int],
                ));
                assert(self.collections@[ci as int]@.tokens[ti as int].values == before.insert(
                    m,
                    TokenResolve::Alias(target),
                ));
                assert forall|j: int|
                    0 <= j < oc.tokens.len() && j != ti implies #[trigger] self.collections@[ci as int]@.tokens[j]
                        == oc.tokens[j] by {
                    assert(self.collections@[ci as int].tokens@[j] == before_cols[ci as int].tokens@[j]);
                    assert(before_cols[ci as int]@.tokens[j] == before_cols[ci as int].tokens@[j]@);
                }
                assert(mode_list@.take(k + 1) =~= mode_list@.take(k as int).push(m));
                assert(self.collections@[ci as int]@.tokens[ti as int].values =~= ot.values.union_prefer_right(
                    Map::new(
                        |m: ModeId| mode_list@.take(k + 1).contains(m),
                        |m: ModeId| TokenResolve::<V>::Alias(target),
                    ),
                ));
            }
            k += 1;
        }
        proof {
            assert(mode_list@.take(mode_list@.len() as int) =~= mode_list@);
            let nc = self.collections@[ci as int]@;
            let nt = nc.tokens[ti as int];
            assert(nt.values =~= ot.values.union_prefer_right(Self::alias_values(oc.modes, target)));
            assert(nc.tokens =~= oc.tokens.update(ti as int, nt));
            assert(self@.collections =~= old_cols.update(ci as int, nc));
            let ids = collection_ids(old_cols);
            assert(old(self)@.locate((collection_id, token_id)) == Some((ci as int, ti as int)));
        }
        Ok(())
    }

    /// Set the active mode of a collection.
    pub fn set_active_mode(&mut self, collection_id: CollectionId, mode_id: ModeId)
        ensures
            final(self)@.active_modes == old(self)@.active_modes.insert(collection_id, mode_id),
            final(self)@.collections == old(self)@.collections,
            final(self)@.next_collection_id == old(self)@.next_collection_id,
            final(self)@.next_token_id == old(self)@.next_token_id,
            final(self)@.next_mode_id == old(self)@.next_mode_id,
    {
        self.active_modes.insert(collection_id, mode_id);
    }
}

} // verus!
