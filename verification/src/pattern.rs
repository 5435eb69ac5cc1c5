//! Classification of names by an ordered list of patterns.
//!
//! The patterns are regular expressions. A pattern's place in the list is the
//! number of the group that it defines, and a name belongs to every group
//! whose pattern matches a prefix of it. The patterns are compiled into one
//! matcher where that can be done, and each into a matcher of its own where
//! it cannot; a pattern that cannot be compiled at all gives way to one that
//! matches nothing, so that every pattern keeps its place.

use vstd::prelude::*;
use regex_automata::meta::Regex;
use regex_automata::{Anchored, Input, PatternID};

verus! {

/// A compiled matcher for a list of patterns.
#[verifier::external_type_specification]
#[verifier::external_body]
pub struct ExRegex(Regex);

/// The patterns that a compiled matcher was built from, in order.
pub uninterp spec fn compiled_patterns(matcher: Regex) -> Seq<Seq<char>>;

/// Whether the regular expression `pattern` matches some prefix of `name`:
/// what a search for this one pattern, anchored at the start of `name`,
/// answers.
pub uninterp spec fn matches_at_start(pattern: Seq<char>, name: Seq<char>) -> bool;

/// How building one matcher for `patterns` ends: `None` where it is built;
/// `Some(Some(i))` where it fails and the failure is laid to pattern `i`;
/// `Some(None)` where it fails and no single pattern is to blame.
pub uninterp spec fn build_failure(patterns: Seq<Seq<char>>) -> Option<Option<usize>>;

/// A pattern that is valid and matches no name.
pub const NEVER_MATCHES: &'static str = "[a&&b]";

/// The largest number of patterns that one matcher can hold.
pub const PATTERN_LIMIT: usize = 0x7FFF_FFFF;

/// The texts of a list of patterns.
pub open spec fn texts(patterns: Seq<&str>) -> Seq<Seq<char>> {
    Seq::new(patterns.len(), |i: int| patterns[i]@)
}

/// Builds one matcher for all of `patterns` with
/// `regex_automata::meta::Builder::build_many`, set to search with the
/// PikeVM alone, the one engine that takes every kind of search. The
/// matcher, where one is built, stands for exactly these patterns in this
/// order. Where none is built, the error's `pattern()` is handed back as a
/// plain index. The outcome depends on the pattern texts alone.
#[verifier::external_body]
fn build_matcher(patterns: &Vec<&str>) -> (r: Result<Regex, Option<usize>>)
    requires
        patterns@.len() <= PATTERN_LIMIT,
    ensures
        match r {
            Ok(matcher) => build_failure(texts(patterns@)) is None && compiled_patterns(matcher)
                == texts(patterns@),
            Err(culprit) => build_failure(texts(patterns@)) == Some(culprit),
        },
{
    let engines = Regex::config().hybrid(false).dfa(false).onepass(false).backtrack(
        false,
    ).auto_prefilter(false);
    match Regex::builder().configure(engines).build_many(patterns.as_slice()) {
        Ok(matcher) => Ok(matcher),
        Err(e) => Err(e.pattern().map(|p| p.as_usize())),
    }
}

/// Asks the matcher, with `regex_automata::meta::Regex::is_match` on an
/// input anchored to the pattern at `place`, whether that one pattern
/// matches a prefix of `name`. The search starts in the pattern's own start
/// state, which leads to matches of this pattern only, and looks for a match
/// that begins at the start of `name`. `NEVER_MATCHES` is a character class
/// without members and matches nothing.
#[verifier::external_body]
fn pattern_matches(matcher: &Regex, place: usize, name: &str) -> (hit: bool)
    requires
        place < compiled_patterns(*matcher).len(),
        compiled_patterns(*matcher).len() <= PATTERN_LIMIT,
    ensures
        hit == matches_at_start(compiled_patterns(*matcher)[place as int], name@),
        compiled_patterns(*matcher)[place as int] == NEVER_MATCHES@ ==> !hit,
{
    matcher.is_match(Input::new(name).anchored(Anchored::Pattern(PatternID::must(place))))
}

/// The list at which building `patterns` as one matcher comes to rest, with
/// at most `tries` substitutions. As long as the build lays its failure to
/// one pattern of the list, that pattern gives way to `NEVER_MATCHES` and
/// the list is built again. It rests at a list that builds, at a failure
/// that no pattern is to blame for, or when the tries run out.
pub open spec fn chain_end(patterns: Seq<Seq<char>>, tries: nat) -> Seq<Seq<char>>
    decreases tries,
{
    match build_failure(patterns) {
        Some(Some(i)) => if i < patterns.len() && tries > 0 {
            chain_end(patterns.update(i as int, NEVER_MATCHES@), (tries - 1) as nat)
        } else {
            patterns
        },
        _ => patterns,
    }
}

/// The places of the patterns that give way on the way to `chain_end`, in
/// the order in which they give way.
pub open spec fn chain_culprits(patterns: Seq<Seq<char>>, tries: nat) -> Seq<usize>
    decreases tries,
{
    match build_failure(patterns) {
        Some(Some(i)) => if i < patterns.len() && tries > 0 {
            seq![i] + chain_culprits(patterns.update(i as int, NEVER_MATCHES@), (tries - 1) as nat)
        } else {
            Seq::empty()
        },
        _ => Seq::empty(),
    }
}

/// Whether a matcher can be built for `pattern` alone.
pub open spec fn builds_alone(pattern: Seq<char>) -> bool {
    build_failure(seq![pattern]) is None
}

/// The list in which every pattern that cannot be built alone has given way
/// to `NEVER_MATCHES`.
pub open spec fn each_alone(patterns: Seq<Seq<char>>) -> Seq<Seq<char>> {
    Seq::new(
        patterns.len(),
        |i: int|
            if builds_alone(patterns[i]) {
                patterns[i]
            } else {
                NEVER_MATCHES@
            },
    )
}

/// The places below `upto` whose patterns cannot be built alone, ascending.
pub open spec fn failing_alone(patterns: Seq<Seq<char>>, upto: nat) -> Seq<usize>
    decreases upto,
{
    if upto == 0 {
        Seq::empty()
    } else if builds_alone(patterns[upto - 1]) {
        failing_alone(patterns, (upto - 1) as nat)
    } else {
        failing_alone(patterns, (upto - 1) as nat).push((upto - 1) as usize)
    }
}

/// The last list that is tried as one matcher: where the chain of
/// substitutions rests, or the list as given where it is too long for one
/// matcher.
pub open spec fn last_tried(patterns: Seq<Seq<char>>) -> Seq<Seq<char>> {
    if patterns.len() <= PATTERN_LIMIT {
        chain_end(patterns, patterns.len())
    } else {
        patterns
    }
}

/// Whether `patterns` end up in one matcher.
pub open spec fn builds_jointly(patterns: Seq<Seq<char>>) -> bool {
    patterns.len() <= PATTERN_LIMIT && build_failure(last_tried(patterns)) is None
}

/// The patterns in force after compiling `patterns`, one at the place of
/// each pattern given. Where the list builds as one matcher, after the
/// patterns that the build blamed have given way, that list is in force.
/// Where it does not, each pattern is built alone, and those that cannot be
/// built give way too.
pub open spec fn in_force(patterns: Seq<Seq<char>>) -> Seq<Seq<char>> {
    if builds_jointly(patterns) {
        last_tried(patterns)
    } else {
        each_alone(last_tried(patterns))
    }
}

/// The places of the patterns that give way when `patterns` are compiled,
/// in the order in which they give way.
pub open spec fn rejected(patterns: Seq<Seq<char>>) -> Seq<usize> {
    let blamed = if patterns.len() <= PATTERN_LIMIT {
        chain_culprits(patterns, patterns.len())
    } else {
        Seq::empty()
    };
    if builds_jointly(patterns) {
        blamed
    } else {
        blamed + failing_alone(last_tried(patterns), patterns.len())
    }
}

/// The chain of substitutions keeps the length of the list, and each
/// pattern is the one given at its place or `NEVER_MATCHES`.
pub proof fn lemma_chain_shape(patterns: Seq<Seq<char>>, tries: nat)
    ensures
        chain_end(patterns, tries).len() == patterns.len(),
        forall|i: int|
            0 <= i < patterns.len() ==> #[trigger] chain_end(patterns, tries)[i] == patterns[i]
                || chain_end(patterns, tries)[i] == NEVER_MATCHES@,
    decreases tries,
{
    match build_failure(patterns) {
        Some(Some(i)) => {
            if i < patterns.len() && tries > 0 {
                lemma_chain_shape(patterns.update(i as int, NEVER_MATCHES@), (tries - 1) as nat);
            }
        },
        _ => {},
    }
}

/// A pattern that the build blamed has a place in the list, and
/// `NEVER_MATCHES` stands in its place at the end of the chain.
pub proof fn lemma_chain_culprits_replaced(patterns: Seq<Seq<char>>, tries: nat, k: int)
    requires
        0 <= k < chain_culprits(patterns, tries).len(),
    ensures
        chain_culprits(patterns, tries)[k] < patterns.len(),
        chain_end(patterns, tries)[chain_culprits(patterns, tries)[k] as int] == NEVER_MATCHES@,
    decreases tries,
{
    match build_failure(patterns) {
        Some(Some(i)) => {
            if i < patterns.len() && tries > 0 {
                let next = patterns.update(i as int, NEVER_MATCHES@);
                let left = (tries - 1) as nat;
                if k > 0 {
                    lemma_chain_culprits_replaced(next, left, k - 1);
                    assert(chain_culprits(patterns, tries)[k] == chain_culprits(next, left)[k - 1]);
                } else {
                    lemma_chain_shape(next, left);
                }
            }
        },
        _ => {},
    }
}

/// A pattern that the build did not blame stands at the end of the chain as
/// it was given.
pub proof fn lemma_chain_keeps_others(patterns: Seq<Seq<char>>, tries: nat, place: int)
    requires
        0 <= place < patterns.len(),
        !chain_culprits(patterns, tries).contains(place as usize),
    ensures
        chain_end(patterns, tries)[place] == patterns[place],
    decreases tries,
{
    match build_failure(patterns) {
        Some(Some(i)) => {
            if i < patterns.len() && tries > 0 {
                let next = patterns.update(i as int, NEVER_MATCHES@);
                let left = (tries - 1) as nat;
                let now = chain_culprits(patterns, tries);
                let later = chain_culprits(next, left);
                assert(now[0] == i);
                assert(now.contains(i));
                if later.contains(place as usize) {
                    let k = choose|k: int| 0 <= k < later.len() && later[k] == place as usize;
                    assert(now[k + 1] == place as usize);
                }
                lemma_chain_keeps_others(next, left, place);
            }
        },
        _ => {},
    }
}

/// The places listed as failing alone are those below `upto` whose patterns
/// cannot be built alone.
pub proof fn lemma_failing_alone(patterns: Seq<Seq<char>>, upto: nat, place: usize)
    requires
        upto <= usize::MAX,
    ensures
        failing_alone(patterns, upto).contains(place) <==> place < upto && !builds_alone(
            patterns[place as int],
        ),
    decreases upto,
{
    if upto > 0 {
        let before = failing_alone(patterns, (upto - 1) as nat);
        let now = failing_alone(patterns, upto);
        lemma_failing_alone(patterns, (upto - 1) as nat, place);
        if !builds_alone(patterns[upto - 1]) {
            assert(now[before.len() as int] == (upto - 1) as usize);
            if now.contains(place) {
                let k = choose|k: int| 0 <= k < now.len() && now[k] == place;
                if k < before.len() {
                    assert(before[k] == place);
                }
            }
            if before.contains(place) {
                let k = choose|k: int| 0 <= k < before.len() && before[k] == place;
                assert(now[k] == place);
            }
        }
    }
}

/// Compiling keeps every place: as many patterns are in force as were
/// given, and each is the one given at its place or `NEVER_MATCHES`.
pub proof fn lemma_in_force_shape(patterns: Seq<Seq<char>>)
    ensures
        in_force(patterns).len() == patterns.len(),
        forall|i: int|
            0 <= i < patterns.len() ==> #[trigger] in_force(patterns)[i] == patterns[i]
                || in_force(patterns)[i] == NEVER_MATCHES@,
{
    lemma_chain_shape(patterns, patterns.len());
}

/// A list that builds as it stands is in force unchanged, and no pattern
/// gives way.
pub proof fn lemma_valid_list_stays(patterns: Seq<Seq<char>>)
    requires
        patterns.len() <= PATTERN_LIMIT,
        build_failure(patterns) is None,
    ensures
        in_force(patterns) == patterns,
        rejected(patterns) == Seq::<usize>::empty(),
{
}

/// A pattern that gave way has a place in the list, and `NEVER_MATCHES` is
/// in force in its place.
pub proof fn lemma_rejected_replaced(patterns: Seq<Seq<char>>, k: int)
    requires
        0 <= k < rejected(patterns).len(),
        patterns.len() <= usize::MAX,
    ensures
        rejected(patterns)[k] < patterns.len(),
        in_force(patterns)[rejected(patterns)[k] as int] == NEVER_MATCHES@,
{
    let n = patterns.len();
    lemma_chain_shape(patterns, n);
    let blamed: Seq<usize> = if n <= PATTERN_LIMIT {
        chain_culprits(patterns, n)
    } else {
        Seq::empty()
    };
    if k < blamed.len() {
        lemma_chain_culprits_replaced(patterns, n, k);
    } else {
        let failing = failing_alone(last_tried(patterns), n);
        let place = failing[k - blamed.len()];
        assert(failing.contains(place));
        lemma_failing_alone(last_tried(patterns), n, place);
    }
}

/// A pattern that did not give way is in force as it was given.
pub proof fn lemma_unrejected_kept(patterns: Seq<Seq<char>>, place: usize)
    requires
        place < patterns.len(),
        patterns.len() <= usize::MAX,
        !rejected(patterns).contains(place),
    ensures
        in_force(patterns)[place as int] == patterns[place as int],
{
    let n = patterns.len();
    lemma_chain_shape(patterns, n);
    let listed = rejected(patterns);
    if n <= PATTERN_LIMIT {
        let blamed = chain_culprits(patterns, n);
        if blamed.contains(place) {
            let k = choose|k: int| 0 <= k < blamed.len() && blamed[k] == place;
            assert(listed[k] == place);
        }
        lemma_chain_keeps_others(patterns, n, place as int);
    }
    if !builds_jointly(patterns) {
        let failing = failing_alone(last_tried(patterns), n);
        let blamed: Seq<usize> = if n <= PATTERN_LIMIT {
            chain_culprits(patterns, n)
        } else {
            Seq::empty()
        };
        if failing.contains(place) {
            let k = choose|k: int| 0 <= k < failing.len() && failing[k] == place;
            assert(listed[blamed.len() + k] == place);
        }
        lemma_failing_alone(last_tried(patterns), n, place);
    }
}

/// What becomes of a list of patterns after a failed build. Where the
/// failure is laid to a pattern of the list and a try is left, that pattern
/// gives way to `NEVER_MATCHES` and the answer is `true`: build again.
/// Otherwise the list stays as it is and the answer is `false`: give up.
pub fn give_way<'a>(list: &mut Vec<&'a str>, culprit: Option<usize>, tries: usize) -> (again: bool)
    ensures
        again == (culprit is Some && culprit.unwrap() < old(list)@.len() && tries > 0),
        again ==> final(list)@ == old(list)@.update(culprit.unwrap() as int, NEVER_MATCHES),
        !again ==> final(list)@ == old(list)@,
{
    match culprit {
        Some(at) => {
            if at < list.len() && tries > 0 {
                list[at] = NEVER_MATCHES;
                true
            } else {
                false
            }
        },
        None => false,
    }
}

/// Builds the list as one matcher, letting each pattern that the build
/// blames give way, until the list builds or no pattern is to blame.
fn build_jointly<'a>(list: &mut Vec<&'a str>, gave_way: &mut Vec<usize>) -> (joint: Option<Regex>)
    requires
        old(list)@.len() <= PATTERN_LIMIT,
    ensures
        final(list)@.len() == old(list)@.len(),
        texts(final(list)@) == chain_end(texts(old(list)@), old(list)@.len()),
        final(gave_way)@ == old(gave_way)@ + chain_culprits(
            texts(old(list)@),
            old(list)@.len(),
        ),
        match joint {
            Some(matcher) => build_failure(texts(final(list)@)) is None && compiled_patterns(
                matcher,
            ) == texts(final(list)@),
            None => build_failure(texts(final(list)@)) is Some,
        },
{
    let count = list.len();
    let ghost given = texts(list@);
    let ghost listed = gave_way@;
    let mut tries: usize = count;
    loop
        invariant
            list@.len() == count,
            count <= PATTERN_LIMIT,
            tries <= count,
            given.len() == count,
            given == texts(old(list)@),
            listed == old(gave_way)@,
            chain_end(texts(list@), tries as nat) == chain_end(given, count as nat),
            gave_way@ + chain_culprits(texts(list@), tries as nat) == listed + chain_culprits(
                given,
                count as nat,
            ),
        decreases tries,
    {
        let ghost before = texts(list@);
        let ghost so_far = gave_way@;
        match build_matcher(list) {
            Ok(matcher) => {
                assert(gave_way@ + Seq::<usize>::empty() =~= gave_way@);
                return Some(matcher);
            },
            Err(culprit) => {
                if give_way(list, culprit, tries) {
                    tries = tries - 1;
                    gave_way.push(culprit.unwrap());
                    proof {
                        let at = culprit.unwrap();
                        assert(texts(list@) =~= before.update(at as int, NEVER_MATCHES@));
                        assert(gave_way@ + chain_culprits(texts(list@), tries as nat) =~= so_far + (
                        seq![at] + chain_culprits(texts(list@), tries as nat)));
                    }
                } else {
                    assert(gave_way@ + Seq::<usize>::empty() =~= gave_way@);
                    return None;
                }
            },
        }
    }
}

/// Builds a matcher for each pattern alone. A pattern that cannot be built
/// gets none and is listed as having given way.
fn build_each(list: &Vec<&str>, gave_way: &mut Vec<usize>) -> (singles: Vec<Option<Regex>>)
    ensures
        singles@.len() == list@.len(),
        forall|i: int|
            0 <= i < singles@.len() ==> match #[trigger] singles@[i] {
                Some(matcher) => builds_alone(list@[i]@) && compiled_patterns(matcher) == seq![
                    list@[i]@,
                ],
                None => !builds_alone(list@[i]@),
            },
        final(gave_way)@ == old(gave_way)@ + failing_alone(texts(list@), list@.len()),
{
    let mut singles: Vec<Option<Regex>> = Vec::new();
    let mut place: usize = 0;
    proof {
        assert(gave_way@ + Seq::<usize>::empty() =~= gave_way@);
    }
    while place < list.len()
        invariant
            place <= list@.len(),
            singles@.len() == place,
            forall|i: int|
                0 <= i < place ==> match #[trigger] singles@[i] {
                    Some(matcher) => builds_alone(list@[i]@) && compiled_patterns(matcher) == seq![
                        list@[i]@,
                    ],
                    None => !builds_alone(list@[i]@),
                },
            gave_way@ == old(gave_way)@ + failing_alone(texts(list@), place as nat),
        decreases list@.len() - place,
    {
        let mut one: Vec<&str> = Vec::new();
        one.push(list[place]);
        proof {
            assert(texts(one@) =~= seq![list@[place as int]@]);
            assert(texts(list@)[place as int] == list@[place as int]@);
        }
        let ghost so_far = gave_way@;
        let ghost before = failing_alone(texts(list@), place as nat);
        match build_matcher(&one) {
            Ok(matcher) => {
                singles.push(Some(matcher));
            },
            Err(_) => {
                singles.push(None);
                gave_way.push(place);
                proof {
                    assert(gave_way@ =~= old(gave_way)@ + before.push(place));
                }
            },
        }
        place = place + 1;
    }
    singles
}

/// A compiled list of patterns that tells for a name which patterns match
/// it.
pub struct PatternClassifier {
    joint: Option<Regex>,
    singles: Vec<Option<Regex>>,
    count: usize,
    gave_way: Vec<usize>,
}

impl PatternClassifier {
    /// The patterns in force, in order.
    pub closed spec fn patterns(&self) -> Seq<Seq<char>> {
        match self.joint {
            Some(matcher) => compiled_patterns(matcher),
            None => Seq::new(
                self.singles@.len(),
                |i: int|
                    match self.singles@[i] {
                        Some(matcher) => compiled_patterns(matcher)[0],
                        None => NEVER_MATCHES@,
                    },
            ),
        }
    }

    /// The patterns that gave way when this classifier was compiled, by
    /// their places in the list, in the order in which they gave way.
    pub closed spec fn gave_way(&self) -> Seq<usize> {
        self.gave_way@
    }

    /// The recorded number of patterns is the number of patterns in force,
    /// held in one matcher or in one matcher for each.
    pub closed spec fn wf(&self) -> bool {
        match self.joint {
            Some(matcher) => self.count == compiled_patterns(matcher).len() && self.count
                <= PATTERN_LIMIT,
            None => self.count == self.singles@.len() && forall|i: int|
                0 <= i < self.singles@.len() ==> match #[trigger] self.singles@[i] {
                    Some(matcher) => compiled_patterns(matcher).len() == 1,
                    None => true,
                },
        }
    }

    /// A classifier without patterns: no name belongs to any group.
    pub fn empty() -> (c: Self)
        ensures
            c.wf(),
            c.patterns() == Seq::<Seq<char>>::empty(),
            c.gave_way() == Seq::<usize>::empty(),
    {
        let c = PatternClassifier {
            joint: None,
            singles: Vec::new(),
            count: 0,
            gave_way: Vec::new(),
        };
        assert(c.patterns() =~= Seq::<Seq<char>>::empty());
        c
    }

    /// Compiles `patterns` into one classifier with one pattern in force at
    /// the place of each pattern given: the pattern itself, or
    /// `NEVER_MATCHES` where it cannot be compiled.
    pub fn compile(patterns: Vec<&str>) -> (c: Self)
        ensures
            c.wf(),
            c.patterns() == in_force(texts(patterns@)),
            c.gave_way() == rejected(texts(patterns@)),
            c.patterns().len() == patterns@.len(),
    {
        let count = patterns.len();
        let ghost given = texts(patterns@);
        let mut list = patterns;
        let mut gave_way: Vec<usize> = Vec::new();
        proof {
            lemma_in_force_shape(given);
        }
        if count <= PATTERN_LIMIT {
            match build_jointly(&mut list, &mut gave_way) {
                Some(matcher) => {
                    assert(gave_way@ =~= rejected(given));
                    return PatternClassifier {
                        joint: Some(matcher),
                        singles: Vec::new(),
                        count,
                        gave_way,
                    };
                },
                None => {
                    assert(gave_way@ =~= chain_culprits(given, count as nat));
                },
            }
        }
        let ghost tried = texts(list@);
        assert(tried == last_tried(given));
        let singles = build_each(&list, &mut gave_way);
        let c = PatternClassifier { joint: None, singles, count, gave_way };
        proof {
            assert forall|i: int| 0 <= i < count implies c.patterns()[i] == each_alone(tried)[i] by {
                assert(tried[i] == list@[i]@);
                match c.singles@[i] {
                    Some(matcher) => {
                        assert(compiled_patterns(matcher)[0] == tried[i]);
                    },
                    None => {},
                }
            }
            assert(c.patterns() =~= each_alone(tried));
        }
        c
    }

    /// The patterns that gave way when this classifier was compiled.
    pub fn rejected(&self) -> (places: &Vec<usize>)
        ensures
            places@ == self.gave_way(),
    {
        &self.gave_way
    }

    /// Number of patterns in force, which is the number of groups.
    pub fn len(&self) -> (n: usize)
        requires
            self.wf(),
        ensures
            n == self.patterns().len(),
    {
        self.count
    }

    /// Whether `name` belongs to the group at `place`: whether the pattern
    /// in force there is not `NEVER_MATCHES` and matches a prefix of `name`.
    pub fn belongs_to(&self, place: usize, name: &str) -> (hit: bool)
        requires
            self.wf(),
            place < self.patterns().len(),
        ensures
            hit == (self.patterns()[place as int] != NEVER_MATCHES@ && matches_at_start(
                self.patterns()[place as int],
                name@,
            )),
    {
        match &self.joint {
            Some(matcher) => pattern_matches(matcher, place, name),
            None => match &self.singles[place] {
                Some(matcher) => pattern_matches(matcher, 0, name),
                None => false,
            },
        }
    }

    /// The groups that `name` belongs to: the place of every pattern in
    /// force that is not `NEVER_MATCHES` and matches a prefix of `name`, in
    /// ascending order, each once. Each pattern is asked on its own, so that
    /// no pattern has a say in what another matches.
    pub fn classify(&self, name: &str) -> (groups: Vec<usize>)
        requires
            self.wf(),
        ensures
            forall|i: int, j: int| 0 <= i < j < groups@.len() ==> groups@[i] < groups@[j],
            forall|g: usize|
                groups@.contains(g) <==> g < self.patterns().len() && self.patterns()[g as int]
                    != NEVER_MATCHES@ && matches_at_start(self.patterns()[g as int], name@),
    {
        let mut groups: Vec<usize> = Vec::new();
        let mut place: usize = 0;
        while place < self.count
            invariant
                self.wf(),
                place <= self.count,
                self.count == self.patterns().len(),
                forall|k: int| 0 <= k < groups@.len() ==> groups@[k] < place,
                forall|i: int, j: int| 0 <= i < j < groups@.len() ==> groups@[i] < groups@[j],
                forall|g: usize|
                    groups@.contains(g) <==> g < place && self.patterns()[g as int]
                        != NEVER_MATCHES@ && matches_at_start(self.patterns()[g as int], name@),
            decreases self.count - place,
        {
            let ghost before = groups@;
            let hit = self.belongs_to(place, name);
            if hit {
                groups.push(place);
            }
            proof {
                if hit {
                    assert(groups@[before.len() as int] == place);
                }
                assert forall|g: usize|
                    groups@.contains(g) <==> g < place + 1 && self.patterns()[g as int]
                        != NEVER_MATCHES@ && matches_at_start(
                        self.patterns()[g as int],
                        name@,
                    ) by {
                    if groups@.contains(g) {
                        let k = choose|k: int| 0 <= k < groups@.len() && groups@[k] == g;
                        if k < before.len() {
                            assert(before[k] == g);
                            assert(before.contains(g));
                        }
                    }
                    if before.contains(g) {
                        let k = choose|k: int| 0 <= k < before.len() && before[k] == g;
                        assert(groups@[k] == g);
                    }
                }
            }
            place = place + 1;
        }
        groups
    }
}

} // verus!
