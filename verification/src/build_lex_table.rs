//! Building the lexers of a parser.

use vstd::prelude::*;

use crate::builder::{numbers_fit, LexTableBuilder};
use crate::character_set::CharacterSet;
use crate::configs::{entry_config, lemma_number_of, lemma_table_for_wf, number_of, table_for, with_entry, Config};
use crate::grammars::{LexicalGrammar, SyntaxGrammar};
use crate::keywords::KeywordRules;
use crate::large_sets::{find_large_sets, large_sets, set_views, token_configs};
use crate::minimize::{lemma_minimal_groups, lemma_minimized_wf, minimal_ids, minimize_lex_table, minimized_table};
use crate::rules::{Symbol, TokenSet, Tokens};
use crate::sort_states::{sort_states, sorted_ids, sorted_table};
use crate::tables::{same_but_lex_ids, LexTable, ParseTable, StateModel};
use crate::token_conflicts::{CoincidentTokenIndex, TokenConflictMap};
use crate::token_groups::{
    group_states, group_views, grouped, is_grouped, is_in_group, is_partition, lemma_grouped, token_views, TokenGroup,
};

verus! {

/// The lexers of a parser.
#[derive(Debug)]
pub struct LexTables {
    /// The lexer that the parse states refer to.
    pub main_lex_table: LexTable,
    /// The lexer that tells keywords from other words.
    pub keyword_lex_table: LexTable,
    /// Character sets that are made up of many ranges; where a set is that of a token as
    /// a whole, with the token.
    pub large_character_sets: Vec<(Option<Symbol>, CharacterSet)>,
}

/// The rules by which keywords are treated.
pub open spec fn rules_for<'a>(
    syntax_grammar: &'a SyntaxGrammar,
    lexical_grammar: &'a LexicalGrammar,
    keywords: &'a TokenSet,
    token_conflict_map: &'a TokenConflictMap,
    unsafe_keyword_pairs: &'a [(Symbol, Symbol)],
) -> KeywordRules<'a> {
    KeywordRules { syntax_grammar, lexical_grammar, keywords, token_conflict_map, unsafe_keyword_pairs }
}

/// The tokens that the lexer looks for in each parse state.
pub open spec fn state_tokens(rules: KeywordRules<'_>, table: ParseTable) -> Seq<Tokens> {
    Seq::new(table.states@.len(), |i: int| rules.lexed_tokens(table, table.states@[i]))
}

/// The groups of parse states that share an entry point of the lexer.
pub open spec fn state_groups(rules: KeywordRules<'_>, index: &CoincidentTokenIndex, table: ParseTable) -> Seq<TokenGroup> {
    grouped(rules.token_conflict_map, index, state_tokens(rules, table))
}

/// The configurations of the lexer that has an entry point for each of the groups.
pub open spec fn group_configs(g: &LexicalGrammar, groups: Seq<TokenGroup>) -> Seq<Config>
    decreases groups.len(),
{
    if groups.len() == 0 {
        Seq::empty()
    } else {
        with_entry(g, group_configs(g, groups.drop_last()), groups.last().0)
    }
}

/// The group of parse state `i`.
pub open spec fn group_of(groups: Seq<TokenGroup>, i: int) -> int {
    choose|k: int| is_in_group(groups, i, k)
}

/// The number of the state in which the lexer starts for parse state `i`.
pub open spec fn entry_number(g: &LexicalGrammar, groups: Seq<TokenGroup>, i: int) -> u32 {
    number_of(group_configs(g, groups), entry_config(g, groups[group_of(groups, i)].0))
}

/// The main lexer, before its states are joined and sorted.
pub open spec fn plain_table(rules: KeywordRules<'_>, index: &CoincidentTokenIndex, table: ParseTable) -> Seq<StateModel> {
    table_for(rules.lexical_grammar, group_configs(rules.lexical_grammar, state_groups(rules, index, table)))
}

/// The main lexer.
pub open spec fn main_table(rules: KeywordRules<'_>, index: &CoincidentTokenIndex, table: ParseTable) -> Seq<StateModel> {
    sorted_table(minimized_table(plain_table(rules, index, table)))
}

/// The state in which the main lexer starts for parse state `i`.
pub open spec fn main_id(rules: KeywordRules<'_>, index: &CoincidentTokenIndex, table: ParseTable, i: int) -> u32 {
    let plain = plain_table(rules, index, table);
    let entry = entry_number(rules.lexical_grammar, state_groups(rules, index, table), i);
    sorted_ids(minimized_table(plain))[minimal_ids(plain)[entry as int] as int]
}

/// The configurations of the keyword lexer.
pub open spec fn keyword_configs(rules: KeywordRules<'_>) -> Seq<Config> {
    if rules.syntax_grammar.word_token is Some {
        with_entry(rules.lexical_grammar, Seq::empty(), rules.keywords@)
    } else {
        Seq::empty()
    }
}

/// The states of all lexers can be numbered with 32 bits.
pub open spec fn tables_fit(rules: KeywordRules<'_>, index: &CoincidentTokenIndex, table: ParseTable) -> bool {
    &&& numbers_fit(group_configs(rules.lexical_grammar, state_groups(rules, index, table)))
    &&& numbers_fit(keyword_configs(rules))
    &&& forall|v: int|
        0 <= v < rules.lexical_grammar.variables@.len() ==> numbers_fit(
            #[trigger] token_configs(rules.lexical_grammar, v),
        )
}

/// The lexers, and the parse table with the lexer states filled in.
pub open spec fn are_built(
    rules: KeywordRules<'_>,
    index: &CoincidentTokenIndex,
    before: ParseTable,
    after: ParseTable,
    tables: LexTables,
) -> bool {
    &&& tables.main_lex_table@ == main_table(rules, index, before)
    &&& tables.keyword_lex_table@ == table_for(rules.lexical_grammar, keyword_configs(rules))
    &&& set_views(tables.large_character_sets@) == large_sets(
        rules.lexical_grammar,
        rules.lexical_grammar.variables@.len(),
    )
    &&& same_but_lex_ids(before, after)
    &&& forall|i: int|
        0 <= i < after.states@.len() ==> (#[trigger] after.states@[i]).lex_state_id == main_id(rules, index, before, i)
}

/// The arguments refer to each other properly, and there is a parse state.
pub open spec fn arguments_wf(rules: KeywordRules<'_>, index: &CoincidentTokenIndex, table: ParseTable) -> bool {
    &&& rules.wf()
    &&& rules.covers(table)
    &&& index.wf(rules.lexical_grammar.variables@.len(), rules.token_conflict_map.row_words as nat)
    &&& table.states@.len() > 0
    &&& rules.syntax_grammar.word_token is Some ==> forall|t: int|
        #[trigger] rules.keywords@.terminals.contains(t) ==> t < rules.lexical_grammar.variables@.len()
}

/// Sets the lexer states of the parse states by their groups.
fn assign_lex_states(parse_table: &mut ParseTable, groups: &Vec<(TokenSet, Vec<u32>)>, ids: &Vec<u32>)
    requires
        ids@.len() == groups@.len(),
        is_partition(group_views(groups@), old(parse_table).states@.len()),
        old(parse_table).states@.len() <= u32::MAX + 1,
    ensures
        same_but_lex_ids(*old(parse_table), *final(parse_table)),
        forall|i: int|
            0 <= i < final(parse_table).states@.len() ==> (#[trigger] final(parse_table).states@[i]).lex_state_id
                == ids@[group_of(group_views(groups@), i)],
{
    let ghost before = *parse_table;
    let ghost views = group_views(groups@);
    let ghost n = before.states@.len();
    let mut k: usize = 0;
    while k < groups.len()
        invariant
            k <= groups@.len(),
            ids@.len() == groups@.len(),
            views == group_views(groups@),
            n == before.states@.len(),
            n <= u32::MAX + 1,
            is_partition(views, n),
            same_but_lex_ids(before, *parse_table),
            forall|i: int, j: int|
                0 <= i < n && j < k && #[trigger] is_in_group(views, i, j) ==> parse_table.states@[i].lex_state_id == ids@[j],
        decreases groups.len() - k,
    {
        let members = &groups[k].1;
        let id = ids[k];
        let mut x: usize = 0;
        while x < members.len()
            invariant
                k < groups@.len(),
                *members == groups@[k as int].1,
                id == ids@[k as int],
                x <= members@.len(),
                ids@.len() == groups@.len(),
                views == group_views(groups@),
                n == before.states@.len(),
                n <= u32::MAX + 1,
                is_partition(views, n),
                same_but_lex_ids(before, *parse_table),
                forall|i: int, j: int|
                    0 <= i < n && j < k && #[trigger] is_in_group(views, i, j) ==> parse_table.states@[i].lex_state_id
                        == ids@[j],
                forall|y: int|
                    0 <= y < x ==> parse_table.states@[(#[trigger] members@[y]) as int].lex_state_id == id,
            decreases members.len() - x,
        {
            let i = members[x] as usize;
            let ghost earlier = parse_table.states@;
            proof {
                assert(views[k as int].1[x as int] == members@[x as int]);
                assert(views[k as int].1[x as int] < n);
                assert(views[k as int].1.contains(i as u32));
                assert(is_in_group(views, i as int, k as int));
            }
            parse_table.states[i].lex_state_id = id;
            x = x + 1;
        }
        assert forall|i: int, j: int| 0 <= i < n && j < k + 1 && #[trigger] is_in_group(views, i, j) implies parse_table.states@[i].lex_state_id
            == ids@[j] by {
            if j == k {
                let y = choose|y: int| 0 <= y < views[j].1.len() && views[j].1[y] == i as u32;
                assert(members@[y] == i as u32);
            }
        }
        k = k + 1;
    }
    assert forall|i: int| 0 <= i < parse_table.states@.len() implies (#[trigger] parse_table.states@[i]).lex_state_id
        == ids@[group_of(views, i)] by {
        assert(is_grouped(views, i));
        assert(is_in_group(views, i, group_of(views, i)));
    }
}

/// The lexer with the given configurations looks for the tokens from state `id` on.
pub open spec fn is_entry(g: &LexicalGrammar, configs: Seq<Config>, tokens: Tokens, id: u32) -> bool {
    configs.contains(entry_config(g, tokens)) && id == number_of(configs, entry_config(g, tokens))
}

/// Adds an entry point to the lexer for each of the groups. Returns the numbers of the
/// states that they start in.
fn add_groups(builder: &mut LexTableBuilder<'_>, groups: &Vec<(TokenSet, Vec<u32>)>) -> (ids: Vec<u32>)
    requires
        old(builder).complete(),
        old(builder).configs@.len() == 0,
        forall|k: int, t: int|
            0 <= k < groups@.len() && #[trigger] groups@[k].0@.terminals.contains(t) ==> t
                < old(builder).lexical_grammar.variables@.len(),
    ensures
        final(builder).complete(),
        final(builder).lexical_grammar == old(builder).lexical_grammar,
        final(builder).configs@ == group_configs(old(builder).lexical_grammar, group_views(groups@)),
        ids@.len() == groups@.len(),
        forall|k: int|
            0 <= k < ids@.len() ==> is_entry(
                old(builder).lexical_grammar,
                final(builder).configs@,
                group_views(groups@)[k].0,
                #[trigger] ids@[k],
            ),
{
    let ghost g = builder.lexical_grammar;
    let ghost views = group_views(groups@);
    let mut ids: Vec<u32> = Vec::new();
    let mut k: usize = 0;
    assert(views.take(0).len() == 0);
    assert(builder.configs@ =~= group_configs(g, views.take(0)));
    while k < groups.len()
        invariant
            k <= groups@.len(),
            builder.complete(),
            builder.lexical_grammar == g,
            views == group_views(groups@),
            forall|k: int, t: int|
                0 <= k < groups@.len() && #[trigger] groups@[k].0@.terminals.contains(t) ==> t < g.variables@.len(),
            builder.configs@ == group_configs(g, views.take(k as int)),
            ids@.len() == k,
            forall|j: int| 0 <= j < ids@.len() ==> is_entry(g, builder.configs@, views[j].0, #[trigger] ids@[j]),
        decreases groups.len() - k,
    {
        let ghost earlier = builder.configs@;
        proof {
            assert(views.take(k + 1).drop_last() =~= views.take(k as int));
            assert(views.take(k + 1).last() == views[k as int]);
            assert(forall|t: int| #[trigger] groups@[k as int].0@.terminals.contains(t) ==> t < g.variables@.len());
        }
        let id = builder.add_state_for_tokens(&groups[k].0);
        let ghost old_ids = ids@;
        ids.push(id);
        assert forall|j: int| 0 <= j < ids@.len() implies is_entry(g, builder.configs@, views[j].0, #[trigger] ids@[j]) by {
            if j < k {
                let entry = entry_config(g, views[j].0);
                assert(is_entry(g, earlier, views[j].0, old_ids[j]));
                lemma_number_of(g, earlier, builder.configs@, entry);
                assert(builder.configs@[earlier.index_of(entry)] == entry);
            }
        }
        k = k + 1;
    }
    assert(views.take(k as int) =~= views);
    ids
}

/// Builds the lexers for a parse table, and sets the lexer states of its parse states,
/// if the states of the lexers can be numbered with 32 bits.
pub fn try_build_lex_table(
    parse_table: &mut ParseTable,
    syntax_grammar: &SyntaxGrammar,
    lexical_grammar: &LexicalGrammar,
    keywords: &TokenSet,
    coincident_token_index: &CoincidentTokenIndex,
    token_conflict_map: &TokenConflictMap,
    unsafe_keyword_pairs: &[(Symbol, Symbol)],
) -> (r: Option<LexTables>)
    requires
        arguments_wf(
            rules_for(syntax_grammar, lexical_grammar, keywords, token_conflict_map, unsafe_keyword_pairs),
            coincident_token_index,
            *old(parse_table),
        ),
    ensures
        r is Some <==> tables_fit(
            rules_for(syntax_grammar, lexical_grammar, keywords, token_conflict_map, unsafe_keyword_pairs),
            coincident_token_index,
            *old(parse_table),
        ),
        r matches Some(tables) ==> are_built(
            rules_for(syntax_grammar, lexical_grammar, keywords, token_conflict_map, unsafe_keyword_pairs),
            coincident_token_index,
            *old(parse_table),
            *final(parse_table),
            tables,
        ),
        r is None ==> *final(parse_table) == *old(parse_table),
{
    let rules = KeywordRules { syntax_grammar, lexical_grammar, keywords, token_conflict_map, unsafe_keyword_pairs };
    let ghost index = coincident_token_index;
    let ghost before = *parse_table;

    let keyword_lex_table = if syntax_grammar.word_token.is_some() {
        let mut builder = LexTableBuilder::new(lexical_grammar);
        proof {
            assert(builder.configs@ =~= Seq::empty());
            assert(syntax_grammar.word_token is Some);
            assert forall|t: int| #[trigger] keywords@.terminals.contains(t) implies t < builder.lexical_grammar.variables@.len() by {
                assert(rules.keywords@.terminals.contains(t));
            }
        }
        builder.add_state_for_tokens(keywords);
        assert(builder.configs@ == keyword_configs(rules));
        if builder.table.states.len() as u64 > 0x1_0000_0000u64 {
            return None;
        }
        builder.table
    } else {
        LexTable::new()
    };
    assert(keyword_lex_table@ =~= table_for(lexical_grammar, keyword_configs(rules)));

    let large_character_sets = match find_large_sets(lexical_grammar) {
        Some(sets) => sets,
        None => {
            return None;
        },
    };

    let token_sets = rules.token_sets(parse_table);
    assert(token_views(token_sets@) =~= state_tokens(rules, before));
    let groups = group_states(token_sets, token_conflict_map, coincident_token_index);
    let ghost views = group_views(groups@);
    proof {
        assert(views == state_groups(rules, index, before));
        lemma_grouped(token_conflict_map, index, state_tokens(rules, before));
    }

    let mut builder = LexTableBuilder::new(lexical_grammar);
    let ids = add_groups(&mut builder, &groups);
    let ghost configs = builder.configs@;
    if builder.table.states.len() as u64 > 0x1_0000_0000u64 {
        return None;
    }
    assign_lex_states(parse_table, &groups, &ids);

    let mut main_lex_table = builder.table;
    let ghost plain = main_lex_table@;
    proof {
        lemma_table_for_wf(lexical_grammar, configs);
        lemma_minimal_groups(plain);
        lemma_minimized_wf(plain);
        assert forall|i: int| 0 <= i < parse_table.states@.len() implies (#[trigger] parse_table.states@[i]).lex_state_id
            < plain.len() && parse_table.states@[i].lex_state_id == entry_number(lexical_grammar, views, i) by {
            let k = group_of(views, i);
            assert(is_grouped(views, i));
            assert(is_in_group(views, i, k));
            assert(is_entry(lexical_grammar, configs, views[k].0, ids@[k]));
            lemma_number_of(lexical_grammar, configs, configs, entry_config(lexical_grammar, views[k].0));
        }
        assert(parse_table.states@[0].lex_state_id < plain.len());
    }
    let ghost assigned = parse_table.states@;
    minimize_lex_table(&mut main_lex_table, parse_table);
    assert forall|i: int| 0 <= i < parse_table.states@.len() implies (#[trigger] parse_table.states@[i]).lex_state_id
        < minimized_table(plain).len() by {
        assert(assigned[i].lex_state_id < plain.len());
        assert(minimal_ids(plain)[assigned[i].lex_state_id as int] < minimized_table(plain).len());
    }
    sort_states(&mut main_lex_table, parse_table);

    Some(LexTables { main_lex_table, keyword_lex_table, large_character_sets })
}

/// Builds the lexers for a parse table, and sets the lexer states of its parse states.
pub fn build_lex_table(
    parse_table: &mut ParseTable,
    syntax_grammar: &SyntaxGrammar,
    lexical_grammar: &LexicalGrammar,
    keywords: &TokenSet,
    coincident_token_index: &CoincidentTokenIndex,
    token_conflict_map: &TokenConflictMap,
    unsafe_keyword_pairs: &[(Symbol, Symbol)],
) -> (tables: LexTables)
    requires
        arguments_wf(
            rules_for(syntax_grammar, lexical_grammar, keywords, token_conflict_map, unsafe_keyword_pairs),
            coincident_token_index,
            *old(parse_table),
        ),
        tables_fit(
            rules_for(syntax_grammar, lexical_grammar, keywords, token_conflict_map, unsafe_keyword_pairs),
            coincident_token_index,
            *old(parse_table),
        ),
    ensures
        are_built(
            rules_for(syntax_grammar, lexical_grammar, keywords, token_conflict_map, unsafe_keyword_pairs),
            coincident_token_index,
            *old(parse_table),
            *final(parse_table),
            tables,
        ),
{
    try_build_lex_table(
        parse_table,
        syntax_grammar,
        lexical_grammar,
        keywords,
        coincident_token_index,
        token_conflict_map,
        unsafe_keyword_pairs,
    ).unwrap()
}

} // verus!
