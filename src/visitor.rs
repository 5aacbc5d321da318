use vstd::prelude::*;
use vstd::string::StringExecFns;
use crate::syntax::{
    all_use_no_hook, callee_name, uses_no_hook, declared_namespace, hook_namespace, is_hook_name, literal_key, namespace_property,
    Node,
};
use crate::text::{
    keys_unique, lemma_unique_push, lemma_unique_update, add_missing, add_missing_strings, find_key, join_strings, join_with, lemma_find_key_range,
    strings_view,
};

verus! {

broadcast use vstd::std_specs::vec::group_vec_axioms;

/// A translator bound in some scope: its namespace and the keys it was
/// called with, each once.
pub struct TranslationFunction {
    pub namespace: String,
    pub usages: Vec<String>,
}

/// The mathematical value of a `TranslationFunction`.
pub struct FunctionModel {
    pub namespace: Seq<char>,
    pub usages: Seq<Seq<char>>,
}

/// The mathematical value of a translator.
pub open spec fn function_model(f: TranslationFunction) -> FunctionModel {
    FunctionModel { namespace: f.namespace@, usages: strings_view(f.usages@) }
}

/// The mathematical value of the bound translators, by qualified name.
pub open spec fn functions_model(fs: Seq<(String, TranslationFunction)>) -> Seq<(Seq<char>, FunctionModel)> {
    fs.map_values(|e: (String, TranslationFunction)| (e.0@, function_model(e.1)))
}

/// The keys extracted from one file, by namespace: namespaces in order of
/// first appearance, the keys of each without repeats.
pub struct ExtractionResult {
    namespaces: Vec<(String, Vec<String>)>,
}

/// The mathematical value of extracted keys by namespace.
pub open spec fn namespaces_model(v: Seq<(String, Vec<String>)>) -> Seq<(Seq<char>, Seq<Seq<char>>)> {
    v.map_values(|e: (String, Vec<String>)| (e.0@, strings_view(e.1@)))
}

/// `res` with `keys` added under `namespace`: a namespace not yet there is
/// added at the end, and a key already there is not added again.
pub open spec fn add_keys(
    res: Seq<(Seq<char>, Seq<Seq<char>>)>,
    namespace: Seq<char>,
    keys: Seq<Seq<char>>,
) -> Seq<(Seq<char>, Seq<Seq<char>>)> {
    let i = find_key(res, namespace, 0);
    if i < 0 {
        res.push((namespace, add_missing(Seq::empty(), keys)))
    } else {
        res.update(i, (namespace, add_missing(res[i].1, keys)))
    }
}

/// The usages of all translators gathered by namespace, in order.
pub open spec fn merge_usages(fns: Seq<(Seq<char>, FunctionModel)>) -> Seq<(Seq<char>, Seq<Seq<char>>)>
    decreases fns.len(),
{
    if fns.len() == 0 {
        Seq::empty()
    } else {
        add_keys(merge_usages(fns.drop_last()), fns.last().1.namespace, fns.last().1.usages)
    }
}

proof fn lemma_add_keys_unique(res: Seq<(Seq<char>, Seq<Seq<char>>)>, namespace: Seq<char>, keys: Seq<Seq<char>>)
    ensures
        keys_unique(res) ==> keys_unique(add_keys(res, namespace, keys)),
{
    if keys_unique(res) {
        let i = find_key(res, namespace, 0);
        lemma_find_key_range(res, namespace, 0);
        if i < 0 {
            lemma_unique_push(res, (namespace, add_missing(Seq::empty(), keys)));
        } else {
            lemma_unique_update(res, i, (namespace, add_missing(res[i].1, keys)));
        }
    }
}

/// Gathering usages by namespace gives each namespace once.
pub proof fn lemma_merge_usages_unique(fns: Seq<(Seq<char>, FunctionModel)>)
    ensures
        keys_unique(merge_usages(fns)),
    decreases fns.len(),
{
    if fns.len() > 0 {
        lemma_merge_usages_unique(fns.drop_last());
        lemma_add_keys_unique(merge_usages(fns.drop_last()), fns.last().1.namespace, fns.last().1.usages);
    }
}

impl ExtractionResult {
    /// The namespaces with their keys, as values.
    pub closed spec fn view(&self) -> Seq<(Seq<char>, Seq<Seq<char>>)> {
        namespaces_model(self.namespaces@)
    }

    /// A result with no namespace.
    pub fn new() -> (r: Self)
        ensures
            r@ == Seq::<(Seq<char>, Seq<Seq<char>>)>::empty(),
            keys_unique(r@),
    {
        let r = ExtractionResult { namespaces: Vec::new() };
        assert(r@ =~= Seq::<(Seq<char>, Seq<Seq<char>>)>::empty());
        r
    }

    /// The number of namespaces.
    pub fn len(&self) -> (r: usize)
        ensures
            r == self@.len(),
    {
        self.namespaces.len()
    }

    pub fn is_empty(&self) -> (r: bool)
        ensures
            r == (self@.len() == 0),
    {
        self.namespaces.len() == 0
    }

    /// The namespaces with their keys.
    pub fn namespaces(&self) -> (r: &Vec<(String, Vec<String>)>)
        ensures
            namespaces_model(r@) == self@,
    {
        &self.namespaces
    }

    /// The keys of `namespace`, if it is there.
    pub fn get(&self, namespace: &str) -> (r: Option<&Vec<String>>)
        ensures
            match r {
                Some(keys) => find_key(self@, namespace@, 0) >= 0 && strings_view(keys@) == self@[find_key(
                    self@,
                    namespace@,
                    0,
                )].1,
                None => find_key(self@, namespace@, 0) == -1,
            },
    {
        let ns = namespace.to_owned();
        match self.find_namespace(&ns) {
            Some(i) => Some(&self.namespaces[i].1),
            None => None,
        }
    }

    fn find_namespace(&self, namespace: &String) -> (r: Option<usize>)
        ensures
            match r {
                Some(i) => i as int == find_key(self@, namespace@, 0) && i < self@.len(),
                None => find_key(self@, namespace@, 0) == -1,
            },
    {
        let ghost m = self@;
        let mut i: usize = 0;
        while i < self.namespaces.len()
            invariant
                i <= self.namespaces.len(),
                m == self@,
                find_key(m, namespace@, 0) == find_key(m, namespace@, i as int),
            decreases self.namespaces.len() - i,
        {
            if self.namespaces[i].0 == *namespace {
                return Some(i);
            }
            i = i + 1;
        }
        None
    }

    /// Adds `keys` under `namespace`.
    pub fn add_keys(&mut self, namespace: &String, keys: &Vec<String>)
        ensures
            final(self)@ == add_keys(old(self)@, namespace@, strings_view(keys@)),
            keys_unique(old(self)@) ==> keys_unique(final(self)@),
    {
        proof {
            lemma_add_keys_unique(self@, namespace@, strings_view(keys@));
        }
        let ghost m = self@;
        match self.find_namespace(namespace) {
            Some(i) => {
                proof {
                    lemma_find_key_range(m, namespace@, 0);
                }
                let mut taken: (String, Vec<String>) = (String::new(), Vec::new());
                self.namespaces.set_and_swap(i, &mut taken);
                add_missing_strings(&mut taken.1, keys);
                self.namespaces.set(i, taken);
                assert(self@ =~= add_keys(m, namespace@, strings_view(keys@)));
            },
            None => {
                let mut fresh: Vec<String> = Vec::new();
                assert(strings_view(fresh@) =~= Seq::<Seq<char>>::empty());
                add_missing_strings(&mut fresh, keys);
                self.namespaces.push((namespace.clone(), fresh));
                assert(self@ =~= add_keys(m, namespace@, strings_view(keys@)));
            },
        }
    }

    /// Adds `key` under `namespace`.
    pub fn insert_key(&mut self, namespace: String, key: String)
        ensures
            final(self)@ == add_keys(old(self)@, namespace@, seq![key@]),
            keys_unique(old(self)@) ==> keys_unique(final(self)@),
    {
        let mut keys: Vec<String> = Vec::new();
        keys.push(key);
        assert(strings_view(keys@) =~= seq![key@]);
        self.add_keys(&namespace, &keys);
    }
}

/// The name under which a binding of `name` in `scope` is kept.
pub open spec fn qualified_name(scope: Seq<Seq<char>>, name: Seq<char>) -> Seq<char> {
    join_with(scope, "."@) + ":"@ + name
}

/// The translators after binding `q` to a fresh translator of `namespace`; a
/// binding of the same name is replaced.
pub open spec fn bind(fns: Seq<(Seq<char>, FunctionModel)>, q: Seq<char>, namespace: Seq<char>) -> Seq<(Seq<char>, FunctionModel)> {
    let f = FunctionModel { namespace, usages: Seq::empty() };
    let i = find_key(fns, q, 0);
    if i < 0 {
        fns.push((q, f))
    } else {
        fns.update(i, (q, f))
    }
}

/// The translators after a call through `q` with the key `key`: the key is
/// added to the translator bound to `q`, if there is one.
pub open spec fn add_usage(fns: Seq<(Seq<char>, FunctionModel)>, q: Seq<char>, key: Seq<char>) -> Seq<(Seq<char>, FunctionModel)> {
    let i = find_key(fns, q, 0);
    if i < 0 {
        fns
    } else {
        fns.update(
            i,
            (q, FunctionModel { namespace: fns[i].1.namespace, usages: add_missing(fns[i].1.usages, seq![key]) }),
        )
    }
}

proof fn lemma_bind_unique(fns: Seq<(Seq<char>, FunctionModel)>, q: Seq<char>, namespace: Seq<char>)
    ensures
        keys_unique(fns) ==> keys_unique(bind(fns, q, namespace)),
{
    if keys_unique(fns) {
        let i = find_key(fns, q, 0);
        lemma_find_key_range(fns, q, 0);
        let f = FunctionModel { namespace, usages: Seq::empty() };
        if i < 0 {
            lemma_unique_push(fns, (q, f));
        } else {
            lemma_unique_update(fns, i, (q, f));
        }
    }
}

proof fn lemma_add_usage_unique(fns: Seq<(Seq<char>, FunctionModel)>, q: Seq<char>, key: Seq<char>)
    ensures
        keys_unique(fns) ==> keys_unique(add_usage(fns, q, key)),
{
    if keys_unique(fns) {
        let i = find_key(fns, q, 0);
        lemma_find_key_range(fns, q, 0);
        if i >= 0 {
            lemma_unique_update(
                fns,
                i,
                (q, FunctionModel { namespace: fns[i].1.namespace, usages: add_missing(fns[i].1.usages, seq![key]) }),
            );
        }
    }
}

/// The translators after the call itself (not its parts) is looked at.
pub open spec fn visit_call(
    fns: Seq<(Seq<char>, FunctionModel)>,
    scope: Seq<Seq<char>>,
    callee: Node,
    arguments: Seq<Node>,
) -> Seq<(Seq<char>, FunctionModel)> {
    match (callee_name(callee), literal_key(arguments)) {
        (Some(n), Some(k)) => add_usage(fns, qualified_name(scope, n), k),
        _ => fns,
    }
}

/// The translators after a depth-first walk of the node in `scope`. A named
/// function opens a scope for its body. A declarator first walks its
/// initializer, then binds its name where that is a hook call naming a
/// namespace. A call is looked at before its callee and its arguments.
pub open spec fn visit_node(fns: Seq<(Seq<char>, FunctionModel)>, scope: Seq<Seq<char>>, n: Node) -> Seq<(Seq<char>, FunctionModel)>
    decreases n, 1nat,
{
    match n {
        Node::Function { name, body } => match name {
            Some(nm) => visit_nodes(fns, scope.push(nm@), body@),
            None => visit_nodes(fns, scope, body@),
        },
        Node::VariableDeclarator { name, init } => {
            let walked = match init {
                Some(b) => visit_node(fns, scope, *b),
                None => fns,
            };
            match (name, declared_namespace(init)) {
                (Some(id), Some(ns)) => bind(walked, qualified_name(scope, id@), ns),
                _ => walked,
            }
        },
        Node::Call { callee, arguments } => visit_nodes(
            visit_node(visit_call(fns, scope, *callee, arguments@), scope, *callee),
            scope,
            arguments@,
        ),
        Node::Await(e) => visit_node(fns, scope, *e),
        Node::StaticMember { object, .. } => visit_node(fns, scope, *object),
        Node::Object(entries) => visit_nodes(fns, scope, entries@),
        Node::Property { value, .. } => visit_node(fns, scope, *value),
        Node::Other(children) => visit_nodes(fns, scope, children@),
        Node::StringLiteral(_) => fns,
        Node::Identifier(_) => fns,
    }
}

pub open spec fn visit_nodes(fns: Seq<(Seq<char>, FunctionModel)>, scope: Seq<Seq<char>>, ns: Seq<Node>) -> Seq<(Seq<char>, FunctionModel)>
    decreases ns, 0nat,
{
    if ns.len() == 0 {
        fns
    } else {
        visit_node(visit_nodes(fns, scope, ns.drop_last()), scope, ns.last())
    }
}

/// The keys that a program's translators are called with, by namespace.
pub open spec fn extraction(program: Seq<Node>) -> Seq<(Seq<char>, Seq<Seq<char>>)> {
    merge_usages(visit_nodes(Seq::empty(), Seq::empty(), program))
}

impl TranslationFunction {
    /// A translator of `namespace` with the given usages, each kept once.
    pub fn new(namespace: String, usages: Vec<String>) -> (r: Self)
        ensures
            function_model(r) == (FunctionModel {
                namespace: namespace@,
                usages: add_missing(Seq::empty(), strings_view(usages@)),
            }),
    {
        let mut kept: Vec<String> = Vec::new();
        assert(strings_view(kept@) =~= Seq::<Seq<char>>::empty());
        add_missing_strings(&mut kept, &usages);
        TranslationFunction { namespace, usages: kept }
    }
}

/// Walks a parsed file, binding translators to scope-qualified names and
/// collecting the keys each is called with.
pub struct TranslationFunctionVisitor {
    translation_functions: Vec<(String, TranslationFunction)>,
    current_scope: Vec<String>,
}

/// The namespace named by a hook call's arguments.
pub fn extract_namespace_from_translations_call(arguments: &Vec<Node>) -> (r: Option<String>)
    ensures
        match r {
            Some(s) => hook_namespace(arguments@) == Some(s@),
            None => hook_namespace(arguments@) is None,
        },
{
    if arguments.len() == 0 {
        return None;
    }
    match &arguments[0] {
        Node::StringLiteral(s) => Some(s.clone()),
        Node::Object(props) => {
            let mut i: usize = 0;
            while i < props.len()
                invariant
                    i <= props.len(),
                    namespace_property(props@, 0) == namespace_property(props@, i as int),
                    hook_namespace(arguments@) == namespace_property(props@, 0),
                decreases props.len() - i,
            {
                match &props[i] {
                    Node::Property { key: Some(k), value } => match &**value {
                        Node::StringLiteral(s) => {
                            if *k == "namespace".to_owned() {
                                return Some(s.clone());
                            }
                        },
                        _ => {},
                    },
                    _ => {},
                }
                i = i + 1;
            }
            None
        },
        _ => None,
    }
}

fn is_hook(name: &String) -> (r: bool)
    ensures
        r == is_hook_name(name@),
{
    *name == "useTranslations".to_owned() || *name == "getTranslations".to_owned()
}

/// The namespace bound by a declarator's initializer.
fn declared_namespace_of(init: &Option<Box<Node>>) -> (r: Option<String>)
    ensures
        match r {
            Some(s) => declared_namespace(*init) == Some(s@),
            None => declared_namespace(*init) is None,
        },
{
    let call: Option<&Node> = match init {
        Some(b) => match &**b {
            Node::Call { .. } => Some(&**b),
            Node::Await(inner) => match &**inner {
                Node::Call { .. } => Some(&**inner),
                _ => None,
            },
            _ => None,
        },
        None => None,
    };
    match call {
        Some(Node::Call { callee, arguments }) => match &**callee {
            Node::Identifier(h) => {
                if is_hook(h) {
                    extract_namespace_from_translations_call(arguments)
                } else {
                    None
                }
            },
            _ => None,
        },
        _ => None,
    }
}

impl TranslationFunctionVisitor {
    /// The bound translators as values, by qualified name.
    pub closed spec fn functions_view(&self) -> Seq<(Seq<char>, FunctionModel)> {
        functions_model(self.translation_functions@)
    }

    /// The names of the open scopes, outermost first.
    pub closed spec fn scope_view(&self) -> Seq<Seq<char>> {
        strings_view(self.current_scope@)
    }

    /// A visitor with no translator and no open scope.
    pub fn new() -> (r: Self)
        ensures
            r.functions_view() == Seq::<(Seq<char>, FunctionModel)>::empty(),
            r.scope_view() == Seq::<Seq<char>>::empty(),
            keys_unique(r.functions_view()),
    {
        let r = TranslationFunctionVisitor { translation_functions: Vec::new(), current_scope: Vec::new() };
        assert(r.functions_view() =~= Seq::<(Seq<char>, FunctionModel)>::empty());
        assert(r.scope_view() =~= Seq::<Seq<char>>::empty());
        r
    }

    /// The translators bound so far, by qualified name.
    pub fn translation_functions(&self) -> (r: &Vec<(String, TranslationFunction)>)
        ensures
            functions_model(r@) == self.functions_view(),
    {
        &self.translation_functions
    }

    /// The names of the open scopes, outermost first.
    pub fn current_scope(&self) -> (r: &Vec<String>)
        ensures
            strings_view(r@) == self.scope_view(),
    {
        &self.current_scope
    }

    pub fn enter_scope(&mut self, name: &str)
        ensures
            final(self).scope_view() == old(self).scope_view().push(name@),
            final(self).functions_view() == old(self).functions_view(),
    {
        let ghost before = self.scope_view();
        self.current_scope.push(name.to_owned());
        assert(self.scope_view() =~= before.push(name@));
    }

    /// Closes the innermost scope; with none open, nothing changes.
    pub fn exit_scope(&mut self)
        ensures
            final(self).scope_view() == (if old(self).scope_view().len() > 0 {
                old(self).scope_view().drop_last()
            } else {
                old(self).scope_view()
            }),
            final(self).functions_view() == old(self).functions_view(),
    {
        let ghost before = self.scope_view();
        let _ = self.current_scope.pop();
        assert(self.scope_view() =~= (if before.len() > 0 { before.drop_last() } else { before }));
    }

    /// The open scopes joined with dots.
    pub fn current_scope_name(&self) -> (r: String)
        ensures
            r@ == join_with(self.scope_view(), "."@),
    {
        join_strings(&self.current_scope, ".")
    }

    fn qualified(&self, name: &String) -> (r: String)
        ensures
            r@ == qualified_name(self.scope_view(), name@),
    {
        let mut q = self.current_scope_name();
        q.append(":");
        q.append(name.as_str());
        q
    }

    fn find_function(&self, q: &String) -> (r: Option<usize>)
        ensures
            match r {
                Some(i) => i as int == find_key(self.functions_view(), q@, 0) && i < self.functions_view().len(),
                None => find_key(self.functions_view(), q@, 0) == -1,
            },
    {
        let ghost m = self.functions_view();
        let mut i: usize = 0;
        while i < self.translation_functions.len()
            invariant
                i <= self.translation_functions.len(),
                m == self.functions_view(),
                find_key(m, q@, 0) == find_key(m, q@, i as int),
            decreases self.translation_functions.len() - i,
        {
            if self.translation_functions[i].0 == *q {
                return Some(i);
            }
            i = i + 1;
        }
        None
    }

    /// Binds `name` to `function`, replacing a binding of the same name.
    pub fn insert_translation_function(&mut self, name: String, function: TranslationFunction)
        ensures
            final(self).functions_view() == ({
                let fns = old(self).functions_view();
                let i = find_key(fns, name@, 0);
                if i < 0 {
                    fns.push((name@, function_model(function)))
                } else {
                    fns.update(i, (name@, function_model(function)))
                }
            }),
            final(self).scope_view() == old(self).scope_view(),
            keys_unique(old(self).functions_view()) ==> keys_unique(final(self).functions_view()),
    {
        let ghost m = self.functions_view();
        proof {
            lemma_find_key_range(m, name@, 0);
            if keys_unique(m) {
                if find_key(m, name@, 0) < 0 {
                    lemma_unique_push(m, (name@, function_model(function)));
                } else {
                    lemma_unique_update(m, find_key(m, name@, 0), (name@, function_model(function)));
                }
            }
        }
        match self.find_function(&name) {
            Some(i) => {
                self.translation_functions.set(i, (name, function));
            },
            None => {
                self.translation_functions.push((name, function));
            },
        }
        assert(self.functions_view() =~= ({
            let i = find_key(m, name@, 0);
            if i < 0 {
                m.push((name@, function_model(function)))
            } else {
                m.update(i, (name@, function_model(function)))
            }
        }));
    }

    /// Binds the declarator's name to a fresh translator where its
    /// initializer is a hook call naming a namespace. A hook call whose
    /// namespace cannot be read binds nothing.
    fn visit_variable_declaration(&mut self, name: &Option<String>, init: &Option<Box<Node>>)
        ensures
            keys_unique(old(self).functions_view()) ==> keys_unique(final(self).functions_view()),
            final(self).functions_view() == (match (*name, declared_namespace(*init)) {
                (Some(id), Some(ns)) => bind(old(self).functions_view(), qualified_name(old(self).scope_view(), id@), ns),
                _ => old(self).functions_view(),
            }),
            final(self).scope_view() == old(self).scope_view(),
    {
        match name {
            Some(id) => match declared_namespace_of(init) {
                Some(ns) => {
                    let q = self.qualified(id);
                    let f = TranslationFunction { namespace: ns, usages: Vec::new() };
                    assert(strings_view(f.usages@) =~= Seq::<Seq<char>>::empty());
                    self.insert_translation_function(q, f);
                },
                None => {},
            },
            None => {},
        }
    }

    /// Adds the call's key to the translator it goes through, if it goes
    /// through one and its first argument is a string literal.
    fn visit_call_expression(&mut self, callee: &Node, arguments: &Vec<Node>)
        ensures
            keys_unique(old(self).functions_view()) ==> keys_unique(final(self).functions_view()),
            final(self).functions_view() == visit_call(old(self).functions_view(), old(self).scope_view(), *callee, arguments@),
            final(self).scope_view() == old(self).scope_view(),
    {
        let name: Option<&String> = match callee {
            Node::Identifier(n) => Some(n),
            Node::StaticMember { object, .. } => match &**object {
                Node::Identifier(n) => Some(n),
                _ => None,
            },
            _ => None,
        };
        let key: Option<&String> = if arguments.len() == 0 {
            None
        } else {
            match &arguments[0] {
                Node::StringLiteral(s) => Some(s),
                _ => None,
            }
        };
        match (name, key) {
            (Some(n), Some(k)) => {
                let q = self.qualified(n);
                match self.find_function(&q) {
                    Some(i) => {
                        let ghost m = self.functions_view();
                        proof {
                            lemma_find_key_range(m, q@, 0);
                            lemma_add_usage_unique(m, q@, k@);
                        }
                        let mut taken = TranslationFunction { namespace: String::new(), usages: Vec::new() };
                        let mut entry: (String, TranslationFunction) = (String::new(), taken);
                        self.translation_functions.set_and_swap(i, &mut entry);
                        let mut keys: Vec<String> = Vec::new();
                        keys.push(k.clone());
                        assert(strings_view(keys@) =~= seq![k@]);
                        add_missing_strings(&mut entry.1.usages, &keys);
                        self.translation_functions.set(i, entry);
                        assert(self.functions_view() =~= add_usage(m, q@, k@));
                    },
                    None => {},
                }
            },
            _ => {},
        }
    }

    /// Walks the node depth-first.
    pub fn visit(&mut self, n: &Node)
        ensures
            keys_unique(old(self).functions_view()) ==> keys_unique(final(self).functions_view()),
            final(self).functions_view() == visit_node(old(self).functions_view(), old(self).scope_view(), *n),
            final(self).scope_view() == old(self).scope_view(),
        decreases n, 1nat,
    {
        match n {
            Node::Function { name, body } => match name {
                Some(nm) => {
                    self.enter_scope(nm.as_str());
                    self.visit_all(body);
                    self.exit_scope();
                },
                None => {
                    self.visit_all(body);
                },
            },
            Node::VariableDeclarator { name, init } => {
                match init {
                    Some(b) => self.visit(&**b),
                    None => {},
                }
                self.visit_variable_declaration(name, init);
            },
            Node::Call { callee, arguments } => {
                self.visit_call_expression(&**callee, arguments);
                self.visit(&**callee);
                self.visit_all(arguments);
            },
            Node::Await(e) => self.visit(&**e),
            Node::StaticMember { object, .. } => self.visit(&**object),
            Node::Object(entries) => self.visit_all(entries),
            Node::Property { value, .. } => self.visit(&**value),
            Node::Other(children) => self.visit_all(children),
            Node::StringLiteral(_) => {},
            Node::Identifier(_) => {},
        }
    }

    /// Walks the nodes in order.
    pub fn visit_all(&mut self, ns: &Vec<Node>)
        ensures
            keys_unique(old(self).functions_view()) ==> keys_unique(final(self).functions_view()),
            final(self).functions_view() == visit_nodes(old(self).functions_view(), old(self).scope_view(), ns@),
            final(self).scope_view() == old(self).scope_view(),
        decreases ns@, 0nat,
    {
        let ghost start = self.functions_view();
        let ghost scope = self.scope_view();
        let mut i: usize = 0;
        assert(ns@.take(0) =~= Seq::<Node>::empty());
        while i < ns.len()
            invariant
                i <= ns.len(),
                self.scope_view() == scope,
                self.functions_view() == visit_nodes(start, scope, ns@.take(i as int)),
                keys_unique(start) ==> keys_unique(self.functions_view()),
            decreases ns.len() - i,
        {
            assert(ns@.take(i + 1).drop_last() =~= ns@.take(i as int));
            assert(ns@.take(i + 1).last() == ns@[i as int]);
            proof {
                assert(decreases_to!(ns@ => ns@[i as int]));
            }
            self.visit(&ns[i]);
            i = i + 1;
        }
        assert(ns@.take(ns.len() as int) =~= ns@);
    }

    /// The keys of all translators gathered by namespace.
    pub fn merge_by_namespace(&self) -> (r: ExtractionResult)
        ensures
            r@ == merge_usages(self.functions_view()),
            keys_unique(r@),
    {
        proof {
            lemma_merge_usages_unique(self.functions_view());
        }
        let ghost fm = self.functions_view();
        let mut result = ExtractionResult::new();
        let mut i: usize = 0;
        assert(fm.take(0) =~= Seq::<(Seq<char>, FunctionModel)>::empty());
        while i < self.translation_functions.len()
            invariant
                i <= self.translation_functions.len(),
                fm == self.functions_view(),
                result@ == merge_usages(fm.take(i as int)),
            decreases self.translation_functions.len() - i,
        {
            assert(fm.take(i + 1).drop_last() =~= fm.take(i as int));
            assert(fm.take(i + 1).last() == fm[i as int]);
            let f = &self.translation_functions[i].1;
            result.add_keys(&f.namespace, &f.usages);
            i = i + 1;
        }
        assert(fm.take(self.translation_functions.len() as int) =~= fm);
        result
    }
}

/// The keys that the program's translators are called with, by namespace.
pub fn extract(program: &Vec<Node>) -> (r: ExtractionResult)
    ensures
        r@ == extraction(program@),
        keys_unique(r@),
{
    let mut visitor = TranslationFunctionVisitor::new();
    visitor.visit_all(program);
    visitor.merge_by_namespace()
}

proof fn lemma_no_hook_node(scope: Seq<Seq<char>>, n: Node)
    requires
        uses_no_hook(n),
    ensures
        visit_node(Seq::empty(), scope, n) == Seq::<(Seq<char>, FunctionModel)>::empty(),
    decreases n, 1nat,
{
    match n {
        Node::Function { name, body } => match name {
            Some(nm) => lemma_no_hook_nodes(scope.push(nm@), body@),
            None => lemma_no_hook_nodes(scope, body@),
        },
        Node::VariableDeclarator { name, init } => {
            match init {
                Some(b) => {
                    reveal_with_fuel(uses_no_hook, 3);
                    assert(uses_no_hook(*b));
                    lemma_no_hook_node(scope, *b);
                    match *b {
                        Node::Await(inner) => {
                            assert(uses_no_hook(*inner));
                        },
                        _ => {},
                    }
                },
                None => {},
            }
            assert(declared_namespace(init) is None);
        },
        Node::Call { callee, arguments } => {
            lemma_no_hook_node(scope, *callee);
            lemma_no_hook_nodes(scope, arguments@);
        },
        Node::Await(e) => lemma_no_hook_node(scope, *e),
        Node::StaticMember { object, .. } => lemma_no_hook_node(scope, *object),
        Node::Object(entries) => lemma_no_hook_nodes(scope, entries@),
        Node::Property { value, .. } => lemma_no_hook_node(scope, *value),
        Node::Other(children) => lemma_no_hook_nodes(scope, children@),
        Node::StringLiteral(_) => {},
        Node::Identifier(_) => {},
    }
}

proof fn lemma_no_hook_nodes(scope: Seq<Seq<char>>, ns: Seq<Node>)
    requires
        all_use_no_hook(ns),
    ensures
        visit_nodes(Seq::empty(), scope, ns) == Seq::<(Seq<char>, FunctionModel)>::empty(),
    decreases ns, 0nat,
{
    if ns.len() > 0 {
        lemma_no_hook_nodes(scope, ns.drop_last());
        lemma_no_hook_node(scope, ns.last());
    }
}

/// A program that never calls a translation hook yields no namespace and no key.
pub proof fn lemma_no_hook_no_keys(program: Seq<Node>)
    requires
        all_use_no_hook(program),
    ensures
        extraction(program) == Seq::<(Seq<char>, Seq<Seq<char>>)>::empty(),
{
    lemma_no_hook_nodes(Seq::empty(), program);
}

/// A declarator whose initializer is a hook call, or an awaited one, with a
/// first argument that is neither a string literal nor an object literal
/// binds nothing: walking it does only what walking the initializer does.
pub proof fn lemma_unreadable_namespace_binds_nothing(
    fns: Seq<(Seq<char>, FunctionModel)>,
    scope: Seq<Seq<char>>,
    name: Option<String>,
    init: Node,
)
    requires
        match init {
            Node::Call { arguments, .. } => arguments@.len() == 0 || !(arguments@[0] is StringLiteral
                || arguments@[0] is Object),
            Node::Await(inner) => match *inner {
                Node::Call { arguments, .. } => arguments@.len() == 0 || !(arguments@[0] is StringLiteral
                    || arguments@[0] is Object),
                _ => true,
            },
            _ => true,
        },
    ensures
        visit_node(fns, scope, Node::VariableDeclarator { name, init: Some(Box::new(init)) }) == visit_node(
            fns,
            scope,
            init,
        ),
{
    assert(declared_namespace(Some(Box::new(init))) is None);
}

} // verus!
