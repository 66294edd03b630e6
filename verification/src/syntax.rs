//! Rust source as the rules see it: a tree of the constructs they look at.
//!
//! Parsing is left to `syn`. Its tree is turned into plain values once, node by
//! node in the order `syn` visits them, and everything after that is decided on
//! the plain tree.

use proc_macro2::TokenTree;
use syn::spanned::Spanned;
use syn::Expr;
use vstd::prelude::*;

verus! {

/// What an expression is, as far as a rule cares.
#[derive(Debug, Clone, Copy, PartialEq, Eq, Structural)]
pub enum Form {
    /// `receiver.method(..)`.
    MethodCall,
    /// `callee(..)`.
    Call,
    /// `base.member`.
    Field,
    /// A path on its own, `self` included.
    Name,
    /// `base[index]`.
    Index,
    /// `inner?`.
    Try,
    /// `for pat in iterable { .. }`.
    ForLoop,
    /// `value as Type`.
    Cast,
    /// Any other expression.
    Other,
}

/// Where something starts in its file: a line counted from one and a column
/// counted from zero.
#[derive(Debug, Clone, Copy, PartialEq, Eq, Structural)]
pub struct Place {
    pub line: usize,
    pub column: usize,
}

/// A token, as far as a rule looks into one.
#[derive(Debug)]
pub enum Token {
    /// An identifier.
    Word(String),
    /// Tokens between brackets of any kind.
    Group(Vec<Token>),
    /// A literal, as it is written.
    Literal(String),
    /// A punctuation mark.
    Mark,
}

/// What a node stands for, with what cannot be read off its children.
#[derive(Debug)]
pub enum Kind {
    /// The whole file.
    File,
    /// An attribute, with the tokens of its argument list if it has one.
    Attribute { arguments: Option<Vec<Token>> },
    /// `mod name { .. }`. Its first children are the attributes it carries, and
    /// this says how many they are.
    Module { attributes: usize },
    /// `impl Type { .. }`, with its attributes counted as a module's are.
    Implementation { attributes: usize },
    /// A function written in an impl block, with its attributes counted as a
    /// module's are.
    Method { attributes: usize },
    /// A `self` parameter.
    Receiver { reference: bool, mutable: bool },
    /// Any other parameter, with its name if the pattern is a plain name.
    Parameter { binding: Option<String> },
    /// `{ .. }`.
    Block,
    /// A statement. It is discarded when it is an expression closed by a semicolon.
    Statement { discarded: bool },
    /// An expression.
    Expression { form: Form, at: Place },
    /// A macro invocation, with the tokens handed to the macro.
    Macro { tokens: String, at: Place },
    /// A type. It is named when it is a path.
    Type { named: bool },
    /// `<A, B>`.
    Generics,
    /// One argument between the angle brackets.
    GenericArgument,
    /// A pattern.
    Pattern,
    /// A path. It is rooted when it starts with `::`.
    Path { rooted: bool },
    /// An identifier.
    Ident { name: String, at: Place },
}

/// A construct and the constructs inside it, in source order.
///
/// Constructs that no rule tells apart have no node of their own: what they
/// hold hangs off the closest construct around them that does. So the
/// attributes of a constant, an import or a generic parameter are children of
/// the module, the impl block or the function around it, behind those that the
/// module, the impl block or the function carries itself.
#[derive(Debug)]
pub struct Node {
    pub kind: Kind,
    pub children: Vec<Node>,
}

/// The mathematical model of a [`Token`].
pub ghost enum TokenView {
    Word(Seq<char>),
    Group(Seq<TokenView>),
    Literal(Seq<char>),
    Mark,
}

/// The mathematical model of a [`Kind`].
pub ghost enum KindView {
    File,
    Attribute { arguments: Option<Seq<TokenView>> },
    Module { attributes: usize },
    Implementation { attributes: usize },
    Method { attributes: usize },
    Receiver { reference: bool, mutable: bool },
    Parameter { binding: Option<Seq<char>> },
    Block,
    Statement { discarded: bool },
    Expression { form: Form, at: Place },
    Macro { tokens: Seq<char>, at: Place },
    Type { named: bool },
    Generics,
    GenericArgument,
    Pattern,
    Path { rooted: bool },
    Ident { name: Seq<char>, at: Place },
}

/// The mathematical model of a [`Node`].
pub ghost struct Tree {
    pub kind: KindView,
    pub children: Seq<Tree>,
}

/// The model of a string that may be absent.
pub open spec fn text_view(text: Option<String>) -> Option<Seq<char>> {
    match text {
        Some(s) => Some(s@),
        None => None,
    }
}

impl Token {
    pub open spec fn view(&self) -> TokenView
        decreases self,
    {
        match self {
            Token::Word(word) => TokenView::Word(word@),
            Token::Group(tokens) => TokenView::Group(
                Seq::new(
                    tokens@.len(),
                    |i: int|
                        if 0 <= i < tokens@.len() {
                            tokens@[i].view()
                        } else {
                            arbitrary()
                        },
                ),
            ),
            Token::Literal(text) => TokenView::Literal(text@),
            Token::Mark => TokenView::Mark,
        }
    }
}

/// The models of some tokens.
pub open spec fn token_views(tokens: Seq<Token>) -> Seq<TokenView> {
    tokens.map_values(|token: Token| token.view())
}

impl KindView {
    /// How many attributes a module, an impl block or a function carries itself.
    pub open spec fn carries(self) -> nat {
        match self {
            KindView::Module { attributes } => attributes as nat,
            KindView::Implementation { attributes } => attributes as nat,
            KindView::Method { attributes } => attributes as nat,
            _ => 0,
        }
    }
}

impl View for Kind {
    type V = KindView;

    open spec fn view(&self) -> KindView {
        match *self {
            Kind::File => KindView::File,
            Kind::Attribute { arguments } => KindView::Attribute {
                arguments: match arguments {
                    Some(tokens) => Some(token_views(tokens@)),
                    None => None,
                },
            },
            Kind::Module { attributes } => KindView::Module { attributes },
            Kind::Implementation { attributes } => KindView::Implementation { attributes },
            Kind::Method { attributes } => KindView::Method { attributes },
            Kind::Receiver { reference, mutable } => KindView::Receiver { reference, mutable },
            Kind::Parameter { binding } => KindView::Parameter { binding: text_view(binding) },
            Kind::Block => KindView::Block,
            Kind::Statement { discarded } => KindView::Statement { discarded },
            Kind::Expression { form, at } => KindView::Expression { form, at },
            Kind::Macro { tokens, at } => KindView::Macro { tokens: tokens@, at },
            Kind::Type { named } => KindView::Type { named },
            Kind::Generics => KindView::Generics,
            Kind::GenericArgument => KindView::GenericArgument,
            Kind::Pattern => KindView::Pattern,
            Kind::Path { rooted } => KindView::Path { rooted },
            Kind::Ident { name, at } => KindView::Ident { name: name@, at },
        }
    }
}

impl Node {
    pub open spec fn view(&self) -> Tree
        decreases self,
    {
        Tree {
            kind: self.kind@,
            children: Seq::new(
                self.children@.len(),
                |i: int|
                    if 0 <= i < self.children@.len() {
                        self.children@[i].view()
                    } else {
                        arbitrary()
                    },
            ),
        }
    }
}

/// An attribute as the parser gives it, `syn::Attribute`.
#[verifier::external_type_specification]
#[verifier::external_body]
pub struct ExAttribute(syn::Attribute);

/// A module as the parser gives it, `syn::ItemMod`.
#[verifier::external_type_specification]
#[verifier::external_body]
pub struct ExItemMod(syn::ItemMod);

/// An impl block as the parser gives it, `syn::ItemImpl`.
#[verifier::external_type_specification]
#[verifier::external_body]
pub struct ExItemImpl(syn::ItemImpl);

/// A function in an impl block as the parser gives it, `syn::ImplItemFn`.
#[verifier::external_type_specification]
#[verifier::external_body]
pub struct ExImplItemFn(syn::ImplItemFn);

/// A parameter as the parser gives it, `syn::FnArg`.
#[verifier::external_type_specification]
#[verifier::external_body]
pub struct ExFnArg(syn::FnArg);

/// A block as the parser gives it, `syn::Block`.
#[verifier::external_type_specification]
#[verifier::external_body]
pub struct ExBlock(syn::Block);

/// A statement as the parser gives it, `syn::Stmt`.
#[verifier::external_type_specification]
#[verifier::external_body]
pub struct ExStmt(syn::Stmt);

/// An expression as the parser gives it, `syn::Expr`.
#[verifier::external_type_specification]
#[verifier::external_body]
pub struct ExExpr(syn::Expr);

/// A macro invocation as the parser gives it, `syn::Macro`.
#[verifier::external_type_specification]
#[verifier::external_body]
pub struct ExMacro(syn::Macro);

/// A type as the parser gives it, `syn::Type`.
#[verifier::external_type_specification]
#[verifier::external_body]
pub struct ExType(syn::Type);

/// Generic arguments as the parser gives it, `syn::AngleBracketedGenericArguments`.
#[verifier::external_type_specification]
#[verifier::external_body]
pub struct ExAngleBracketedGenericArguments(syn::AngleBracketedGenericArguments);

/// One generic argument as the parser gives it, `syn::GenericArgument`.
#[verifier::external_type_specification]
#[verifier::external_body]
pub struct ExGenericArgument(syn::GenericArgument);

/// A pattern as the parser gives it, `syn::Pat`.
#[verifier::external_type_specification]
#[verifier::external_body]
pub struct ExPat(syn::Pat);

/// A path as the parser gives it, `syn::Path`.
#[verifier::external_type_specification]
#[verifier::external_body]
pub struct ExPath(syn::Path);

/// An identifier as the parser gives it, `proc_macro2::Ident`.
#[verifier::external_type_specification]
#[verifier::external_body]
pub struct ExIdent(proc_macro2::Ident);

/// Tokens as the parser gives them, `proc_macro2::TokenStream`.
#[verifier::external_type_specification]
#[verifier::external_body]
pub struct ExTokenStream(proc_macro2::TokenStream);

/// The tokens of a `proc_macro2::TokenStream`, turned into plain values one by
/// one in the order the stream gives them, groups opened.
#[verifier::external_body]
fn tokens_of(stream: &proc_macro2::TokenStream) -> (tokens: Vec<Token>) {
    let one = |tree: TokenTree| match tree {
        TokenTree::Ident(word) => Token::Word(word.to_string()),
        TokenTree::Group(group) => Token::Group(tokens_of(&group.stream())),
        TokenTree::Literal(literal) => Token::Literal(literal.to_string()),
        TokenTree::Punct(_) => Token::Mark,
    };
    stream.clone().into_iter().map(one).collect()
}

/// The nodes gathered so far at the level being visited.
struct Recorder {
    nodes: Vec<Node>,
}

/// Each method turns one `syn` node into the [`Node`] that stands for it: it
/// lets `syn` visit what is inside and makes what was gathered there the
/// children of the new node.
impl<'ast> syn::visit::Visit<'ast> for Recorder {
    /// `syn::visit::visit_attribute`: the attribute, with the tokens of what
    /// `syn::Meta::require_list` gives for its list.
    #[verifier::external_body]
    fn visit_attribute(&mut self, attribute: &'ast syn::Attribute) {
        let mark = self.nodes.len();
        syn::visit::visit_attribute(self, attribute);
        let children = self.nodes.split_off(mark);
        let arguments = attribute.meta.require_list().ok().map(|list| tokens_of(&list.tokens));
        self.nodes.push(Node { kind: Kind::Attribute { arguments }, children });
    }

    /// `syn::visit::visit_item_mod`, which visits the module's own attributes
    /// first: the module.
    #[verifier::external_body]
    fn visit_item_mod(&mut self, module: &'ast syn::ItemMod) {
        let mark = self.nodes.len();
        syn::visit::visit_item_mod(self, module);
        let children = self.nodes.split_off(mark);
        self.nodes.push(Node { kind: Kind::Module { attributes: module.attrs.len() }, children });
    }

    /// `syn::visit::visit_item_impl`, which visits the block's own attributes
    /// first: the impl block.
    #[verifier::external_body]
    fn visit_item_impl(&mut self, item: &'ast syn::ItemImpl) {
        let mark = self.nodes.len();
        syn::visit::visit_item_impl(self, item);
        let children = self.nodes.split_off(mark);
        let kind = Kind::Implementation { attributes: item.attrs.len() };
        self.nodes.push(Node { kind, children });
    }

    /// `syn::visit::visit_impl_item_fn`, which visits the function's own
    /// attributes first: the function.
    #[verifier::external_body]
    fn visit_impl_item_fn(&mut self, function: &'ast syn::ImplItemFn) {
        let mark = self.nodes.len();
        syn::visit::visit_impl_item_fn(self, function);
        let children = self.nodes.split_off(mark);
        let kind = Kind::Method { attributes: function.attrs.len() };
        self.nodes.push(Node { kind, children });
    }

    /// `syn::visit::visit_fn_arg`: the parameter, a receiver or a typed one.
    #[verifier::external_body]
    fn visit_fn_arg(&mut self, arg: &'ast syn::FnArg) {
        let mark = self.nodes.len();
        syn::visit::visit_fn_arg(self, arg);
        let children = self.nodes.split_off(mark);
        let kind = match arg {
            syn::FnArg::Receiver(r) => {
                Kind::Receiver { reference: r.reference.is_some(), mutable: r.mutability.is_some() }
            },
            syn::FnArg::Typed(t) => match &*t.pat {
                syn::Pat::Ident(p) => Kind::Parameter { binding: Some(p.ident.to_string()) },
                _ => Kind::Parameter { binding: None },
            },
        };
        self.nodes.push(Node { kind, children });
    }

    /// `syn::visit::visit_block`: the block.
    #[verifier::external_body]
    fn visit_block(&mut self, block: &'ast syn::Block) {
        let mark = self.nodes.len();
        syn::visit::visit_block(self, block);
        let children = self.nodes.split_off(mark);
        self.nodes.push(Node { kind: Kind::Block, children });
    }

    /// `syn::visit::visit_stmt`: the statement.
    #[verifier::external_body]
    fn visit_stmt(&mut self, stmt: &'ast syn::Stmt) {
        let mark = self.nodes.len();
        syn::visit::visit_stmt(self, stmt);
        let children = self.nodes.split_off(mark);
        let discarded = matches!(stmt, syn::Stmt::Expr(_, Some(_)));
        self.nodes.push(Node { kind: Kind::Statement { discarded }, children });
    }

    /// `syn::visit::visit_expr`: the expression, with the start of its span.
    #[verifier::external_body]
    fn visit_expr(&mut self, expr: &'ast Expr) {
        let (start, mark) = (expr.span().start(), self.nodes.len());
        syn::visit::visit_expr(self, expr);
        let form = match expr {
            Expr::MethodCall(_) => Form::MethodCall,
            Expr::Call(_) => Form::Call,
            Expr::Field(_) => Form::Field,
            Expr::Path(_) => Form::Name,
            Expr::Index(_) => Form::Index,
            Expr::Try(_) => Form::Try,
            Expr::ForLoop(_) => Form::ForLoop,
            Expr::Cast(_) => Form::Cast,
            _ => Form::Other,
        };
        let (at, children) = (Place { line: start.line, column: start.column }, self.nodes.split_off(mark));
        self.nodes.push(Node { kind: Kind::Expression { form, at }, children });
    }

    /// `syn::visit::visit_macro`: the invocation, with the start of its span
    /// and its tokens as `TokenStream` prints them.
    #[verifier::external_body]
    fn visit_macro(&mut self, mac: &'ast syn::Macro) {
        let mark = self.nodes.len();
        syn::visit::visit_macro(self, mac);
        let children = self.nodes.split_off(mark);
        let start = mac.span().start();
        let at = Place { line: start.line, column: start.column };
        self.nodes.push(Node { kind: Kind::Macro { tokens: mac.tokens.to_string(), at }, children });
    }

    /// `syn::visit::visit_type`: the type.
    #[verifier::external_body]
    fn visit_type(&mut self, ty: &'ast syn::Type) {
        let mark = self.nodes.len();
        syn::visit::visit_type(self, ty);
        let children = self.nodes.split_off(mark);
        let named = matches!(ty, syn::Type::Path(_));
        self.nodes.push(Node { kind: Kind::Type { named }, children });
    }

    /// `syn::visit::visit_angle_bracketed_generic_arguments`: the brackets.
    #[verifier::external_body]
    fn visit_angle_bracketed_generic_arguments(
        &mut self,
        generics: &'ast syn::AngleBracketedGenericArguments,
    ) {
        let mark = self.nodes.len();
        syn::visit::visit_angle_bracketed_generic_arguments(self, generics);
        let children = self.nodes.split_off(mark);
        self.nodes.push(Node { kind: Kind::Generics, children });
    }

    /// `syn::visit::visit_generic_argument`: one argument in the brackets.
    #[verifier::external_body]
    fn visit_generic_argument(&mut self, argument: &'ast syn::GenericArgument) {
        let mark = self.nodes.len();
        syn::visit::visit_generic_argument(self, argument);
        let children = self.nodes.split_off(mark);
        self.nodes.push(Node { kind: Kind::GenericArgument, children });
    }

    /// `syn::visit::visit_pat`: the pattern.
    #[verifier::external_body]
    fn visit_pat(&mut self, pat: &'ast syn::Pat) {
        let mark = self.nodes.len();
        syn::visit::visit_pat(self, pat);
        let children = self.nodes.split_off(mark);
        self.nodes.push(Node { kind: Kind::Pattern, children });
    }

    /// `syn::visit::visit_path`: the path, its segments' names being its
    /// identifiers.
    #[verifier::external_body]
    fn visit_path(&mut self, path: &'ast syn::Path) {
        let mark = self.nodes.len();
        syn::visit::visit_path(self, path);
        let children = self.nodes.split_off(mark);
        self.nodes.push(Node { kind: Kind::Path { rooted: path.leading_colon.is_some() }, children });
    }

    /// `syn::visit::visit_ident`: the identifier, as it prints, with the start
    /// of its span. Nothing is inside one.
    #[verifier::external_body]
    fn visit_ident(&mut self, ident: &'ast proc_macro2::Ident) {
        let start = ident.span().start();
        let at = Place { line: start.line, column: start.column };
        let kind = Kind::Ident { name: ident.to_string(), at };
        self.nodes.push(Node { kind, children: Vec::new() });
    }
}

/// The tree that `syn::parse_file` builds for a text, or why it refuses it.
pub uninterp spec fn parsed(text: Seq<char>) -> Result<Tree, Seq<char>>;

/// Calls `syn::parse_file` and turns the file it gives into plain values, by
/// letting `syn` visit it; an error is turned into its message.
///
/// Claimed: what comes back depends on the text alone. Left unsaid: which tree
/// a text has, that being `syn`'s grammar of Rust. Text nested deeper than the
/// stack allows stops the process, as it does in `syn` itself.
#[verifier::external_body]
fn parse_file(text: &str) -> (file: Result<Node, String>)
    ensures
        match file {
            Ok(node) => parsed(text@) == Ok::<Tree, Seq<char>>(node@),
            Err(reason) => parsed(text@) == Err::<Tree, Seq<char>>(reason@),
        },
{
    let file = syn::parse_file(text).map_err(|err| err.to_string())?;
    let mut recorder = Recorder { nodes: Vec::new() };
    syn::visit::Visit::visit_file(&mut recorder, &file);
    Ok(Node { kind: Kind::File, children: recorder.nodes })
}

/// Parses a source file, saying why where it cannot be parsed.
pub fn parse(text: &str) -> (file: Result<Node, String>)
    ensures
        match file {
            Ok(node) => parsed(text@) == Ok::<Tree, Seq<char>>(node@),
            Err(reason) => parsed(text@) == Err::<Tree, Seq<char>>(reason@),
        },
{
    parse_file(text)
}

/// What a node is, whatever it holds.
#[derive(Debug, Clone, Copy, PartialEq, Eq, Structural)]
pub enum Sort {
    File,
    Attribute,
    Module,
    Implementation,
    Method,
    Receiver,
    Parameter,
    Block,
    Statement,
    Expression,
    Macro,
    Type,
    Generics,
    GenericArgument,
    Pattern,
    Path,
    Ident,
}

impl Tree {
    /// What the node is.
    pub open spec fn sort(self) -> Sort {
        match self.kind {
            KindView::File => Sort::File,
            KindView::Attribute { .. } => Sort::Attribute,
            KindView::Module { .. } => Sort::Module,
            KindView::Implementation { .. } => Sort::Implementation,
            KindView::Method { .. } => Sort::Method,
            KindView::Receiver { .. } => Sort::Receiver,
            KindView::Parameter { .. } => Sort::Parameter,
            KindView::Block => Sort::Block,
            KindView::Statement { .. } => Sort::Statement,
            KindView::Expression { .. } => Sort::Expression,
            KindView::Macro { .. } => Sort::Macro,
            KindView::Type { .. } => Sort::Type,
            KindView::Generics => Sort::Generics,
            KindView::GenericArgument => Sort::GenericArgument,
            KindView::Pattern => Sort::Pattern,
            KindView::Path { .. } => Sort::Path,
            KindView::Ident { .. } => Sort::Ident,
        }
    }

    /// The form of an expression.
    pub open spec fn form(self) -> Option<Form> {
        match self.kind {
            KindView::Expression { form, .. } => Some(form),
            _ => None,
        }
    }

    /// Where an expression, a macro or an identifier starts. Nothing else asks.
    pub open spec fn place(self) -> Place {
        match self.kind {
            KindView::Expression { at, .. } => at,
            KindView::Macro { at, .. } => at,
            KindView::Ident { at, .. } => at,
            _ => Place { line: 0, column: 0 },
        }
    }

    /// The name of an identifier.
    pub open spec fn ident(self) -> Option<Seq<char>> {
        match self.kind {
            KindView::Ident { name, .. } => Some(name),
            _ => None,
        }
    }

    /// The attributes that a module, an impl block or a function carries itself.
    pub open spec fn attributes(self) -> Seq<Tree> {
        if self.kind.carries() <= self.children.len() {
            self.children.take(self.kind.carries() as int)
        } else {
            self.children
        }
    }

    /// The children of one sort, in order.
    pub open spec fn those(self, sort: Sort) -> Seq<Tree> {
        self.children.filter(|child: Tree| child.sort() == sort)
    }

    /// The first child of one sort.
    pub open spec fn first(self, sort: Sort) -> Option<Tree> {
        if self.those(sort).len() > 0 {
            Some(self.those(sort)[0])
        } else {
            None
        }
    }

    /// The name that the node's first identifier gives it: a function's, a
    /// module's, the method of a method call or the member of a field access.
    pub open spec fn name(self) -> Option<Seq<char>> {
        match self.first(Sort::Ident) {
            Some(ident) => ident.ident(),
            None => None,
        }
    }

    /// The last name of the path that the node's first path child is: that of
    /// an attribute, of a macro or of an expression that is a path.
    pub open spec fn tail(self) -> Option<Seq<char>> {
        match self.first(Sort::Path) {
            Some(path) => path.last_name(),
            None => None,
        }
    }

    /// The last of the identifiers that a path is made of.
    pub open spec fn last_name(self) -> Option<Seq<char>> {
        let segments = self.those(Sort::Ident);
        if segments.len() > 0 {
            segments.last().ident()
        } else {
            None
        }
    }

    /// The expressions that the node is made of: the receiver and the arguments
    /// of a method call, the callee and the arguments of a call, the base of a
    /// field access, and so on.
    pub open spec fn operands(self) -> Seq<Tree> {
        self.those(Sort::Expression)
    }
}

/// A node and everything in it, each node before what it holds.
pub open spec fn nodes(t: Tree) -> Seq<Tree>
    decreases t,
{
    seq![t] + nodes_of_all(t.children)
}

pub open spec fn nodes_of_all(ts: Seq<Tree>) -> Seq<Tree>
    decreases ts,
{
    if ts.len() == 0 {
        Seq::empty()
    } else {
        nodes_of_all(ts.drop_last()) + nodes(ts.last())
    }
}

/// The models of some nodes.
pub open spec fn trees(list: Seq<&Node>) -> Seq<Tree> {
    list.map_values(|node: &Node| node.view())
}

impl Node {
    /// What the node is.
    pub fn sort(&self) -> (r: Sort)
        ensures
            r == self@.sort(),
    {
        match &self.kind {
            Kind::File => Sort::File,
            Kind::Attribute { .. } => Sort::Attribute,
            Kind::Module { .. } => Sort::Module,
            Kind::Implementation { .. } => Sort::Implementation,
            Kind::Method { .. } => Sort::Method,
            Kind::Receiver { .. } => Sort::Receiver,
            Kind::Parameter { .. } => Sort::Parameter,
            Kind::Block => Sort::Block,
            Kind::Statement { .. } => Sort::Statement,
            Kind::Expression { .. } => Sort::Expression,
            Kind::Macro { .. } => Sort::Macro,
            Kind::Type { .. } => Sort::Type,
            Kind::Generics => Sort::Generics,
            Kind::GenericArgument => Sort::GenericArgument,
            Kind::Pattern => Sort::Pattern,
            Kind::Path { .. } => Sort::Path,
            Kind::Ident { .. } => Sort::Ident,
        }
    }

    /// The form of an expression.
    pub fn form(&self) -> (r: Option<Form>)
        ensures
            r == self@.form(),
    {
        match &self.kind {
            Kind::Expression { form, .. } => Some(*form),
            _ => None,
        }
    }

    /// Where an expression, a macro or an identifier starts.
    pub fn place(&self) -> (r: Place)
        ensures
            r == self@.place(),
    {
        match &self.kind {
            Kind::Expression { at, .. } => *at,
            Kind::Macro { at, .. } => *at,
            Kind::Ident { at, .. } => *at,
            _ => Place { line: 0, column: 0 },
        }
    }

    /// The name of an identifier.
    pub fn ident(&self) -> (r: Option<&str>)
        ensures
            text_of(r) == self@.ident(),
    {
        match &self.kind {
            Kind::Ident { name, .. } => Some(name.as_str()),
            _ => None,
        }
    }

    /// The attributes that a module, an impl block or a function carries itself.
    pub fn attributes(&self) -> (r: Vec<&Node>)
        ensures
            trees(r@) == self@.attributes(),
    {
        let counted: usize = match &self.kind {
            Kind::Module { attributes } => *attributes,
            Kind::Implementation { attributes } => *attributes,
            Kind::Method { attributes } => *attributes,
            _ => 0,
        };
        let n = if counted <= self.children.len() { counted } else { self.children.len() };
        let mut r: Vec<&Node> = Vec::new();
        for i in 0..n
            invariant
                n <= self.children@.len(),
                r@.len() == i,
                forall|j: int| 0 <= j < i ==> (#[trigger] r@[j])@ == self.children@[j]@,
        {
            r.push(&self.children[i]);
        }
        assert(trees(r@) =~= self@.attributes());
        r
    }

    /// The children of one sort, in order.
    pub fn those(&self, sort: Sort) -> (r: Vec<&Node>)
        ensures
            trees(r@) == self@.those(sort),
    {
        let ghost all = self@.children;
        let ghost keep = |child: Tree| child.sort() == sort;
        let mut r: Vec<&Node> = Vec::new();
        for i in 0..self.children.len()
            invariant
                all == self@.children,
                all.len() == self.children@.len(),
                keep == (|child: Tree| child.sort() == sort),
                trees(r@) == all.take(i as int).filter(keep),
        {
            let child = &self.children[i];
            let ghost before = r@;
            proof {
                assert(all[i as int] == child@);
                assert(all.take(i + 1).drop_last() =~= all.take(i as int));
                assert(all.take(i + 1).last() == child@);
                reveal(Seq::filter);
            }
            if child.sort() == sort {
                r.push(child);
                assert(trees(r@) =~= trees(before).push(child@));
            }
        }
        assert(all.take(self.children@.len() as int) =~= all);
        r
    }

    /// The first child of one sort.
    pub fn first(&self, sort: Sort) -> (r: Option<&Node>)
        ensures
            tree_of(r) == self@.first(sort),
    {
        let found = self.those(sort);
        if found.len() > 0 {
            assert(trees(found@)[0] == found@[0]@);
            Some(found[0])
        } else {
            None
        }
    }

    /// The name that the node's first identifier gives it.
    pub fn name(&self) -> (r: Option<&str>)
        ensures
            text_of(r) == self@.name(),
    {
        match self.first(Sort::Ident) {
            Some(ident) => ident.ident(),
            None => None,
        }
    }

    /// The last name of the node's first path.
    pub fn tail(&self) -> (r: Option<&str>)
        ensures
            text_of(r) == self@.tail(),
    {
        match self.first(Sort::Path) {
            Some(path) => path.last_name(),
            None => None,
        }
    }

    /// The last of the identifiers that a path is made of.
    pub fn last_name(&self) -> (r: Option<&str>)
        ensures
            text_of(r) == self@.last_name(),
    {
        let segments = self.those(Sort::Ident);
        let n = segments.len();
        if n > 0 {
            assert(trees(segments@)[n - 1] == segments@[n - 1]@);
            segments[n - 1].ident()
        } else {
            None
        }
    }

    /// The expressions that the node is made of.
    pub fn operands(&self) -> (r: Vec<&Node>)
        ensures
            trees(r@) == self@.operands(),
    {
        self.those(Sort::Expression)
    }

    /// The node and everything in it, each node before what it holds.
    pub fn flatten(&self) -> (r: Vec<&Node>)
        ensures
            trees(r@) == nodes(self@),
    {
        let mut found: Vec<&Node> = Vec::new();
        gather(self, &mut found);
        assert(trees(found@) =~= nodes(self@));
        found
    }
}

fn gather<'a>(node: &'a Node, found: &mut Vec<&'a Node>)
    ensures
        trees(final(found)@) == trees(old(found)@) + nodes(node@),
    decreases node,
{
    let ghost before = trees(found@);
    let ghost all = node@.children;
    found.push(node);
    assert(trees(found@) =~= before + seq![node@] + nodes_of_all(all.take(0)));
    for i in 0..node.children.len()
        invariant
            all == node@.children,
            all.len() == node.children@.len(),
            trees(found@) == before + seq![node@] + nodes_of_all(all.take(i as int)),
        decreases node.children.len() - i,
    {
        assert(all[i as int] == node.children@[i as int]@);
        assert(all.take(i + 1).drop_last() =~= all.take(i as int));
        let ghost so_far = nodes_of_all(all.take(i as int));
        gather(&node.children[i], found);
        assert(trees(found@) =~= before + seq![node@] + (so_far + nodes(all[i as int])));
    }
    assert(all.take(all.len() as int) =~= all);
    assert(trees(found@) =~= before + nodes(node@));
}

/// The model of a borrowed text that may be absent.
pub open spec fn text_of(text: Option<&str>) -> Option<Seq<char>> {
    match text {
        Some(s) => Some(s@),
        None => None,
    }
}

/// The model of a node that may be absent.
pub open spec fn tree_of(node: Option<&Node>) -> Option<Tree> {
    match node {
        Some(n) => Some(n.view()),
        None => None,
    }
}

/// What is in a child is in the node.
pub proof fn lemma_child_nodes(t: Tree, k: int, x: Tree)
    requires
        0 <= k < t.children.len(),
        nodes(t.children[k]).contains(x),
    ensures
        nodes(t).contains(x),
{
    lemma_nodes_of_one(t.children, k, x);
    let inner = nodes_of_all(t.children);
    let j = choose|j: int| 0 <= j < inner.len() && inner[j] == x;
    assert(nodes(t)[j + 1] == x);
}

proof fn lemma_nodes_of_one(ts: Seq<Tree>, k: int, x: Tree)
    requires
        0 <= k < ts.len(),
        nodes(ts[k]).contains(x),
    ensures
        nodes_of_all(ts).contains(x),
    decreases ts.len(),
{
    let rest = nodes_of_all(ts.drop_last());
    if k < ts.len() - 1 {
        lemma_nodes_of_one(ts.drop_last(), k, x);
        let j = choose|j: int| 0 <= j < rest.len() && rest[j] == x;
        assert(nodes_of_all(ts)[j] == x);
    } else {
        let last = nodes(ts.last());
        let j = choose|j: int| 0 <= j < last.len() && last[j] == x;
        assert(nodes_of_all(ts)[rest.len() + j] == x);
    }
}

/// What is in a node is the node, or in one of its children.
pub proof fn lemma_node_or_below(t: Tree, x: Tree)
    requires
        nodes(t).contains(x),
    ensures
        x == t || exists|k: int|
            0 <= k < t.children.len() && #[trigger] nodes(t.children[k]).contains(x),
{
    let inner = nodes_of_all(t.children);
    let j = choose|j: int| 0 <= j < nodes(t).len() && nodes(t)[j] == x;
    if j > 0 {
        assert(inner[j - 1] == x);
        lemma_in_one_of(t.children, x);
    }
}

proof fn lemma_in_one_of(ts: Seq<Tree>, x: Tree)
    requires
        nodes_of_all(ts).contains(x),
    ensures
        exists|k: int| 0 <= k < ts.len() && #[trigger] nodes(ts[k]).contains(x),
    decreases ts.len(),
{
    let all = nodes_of_all(ts);
    let j = choose|j: int| 0 <= j < all.len() && all[j] == x;
    if ts.len() > 0 {
        let rest = nodes_of_all(ts.drop_last());
        if j < rest.len() {
            assert(rest[j] == x);
            lemma_in_one_of(ts.drop_last(), x);
            let k = choose|k: int|
                0 <= k < ts.drop_last().len() && #[trigger] nodes(ts.drop_last()[k]).contains(x);
            assert(nodes(ts[k]).contains(x));
        } else {
            assert(nodes(ts.last())[j - rest.len()] == x);
            assert(nodes(ts[ts.len() - 1]).contains(x));
        }
    }
}

} // verus!
