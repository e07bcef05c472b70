//! Output model: every located value carries a `ByteSpan` into the decoded
//! UTF-8 text the parser worked on.
use vstd::prelude::*;

verus! {

/// Half-open `[start, end)` byte offset into the decoded UTF-8 text.
#[derive(Debug, Default, Clone, Copy, PartialEq, Eq)]
pub struct ByteSpan {
    pub start: u32,
    pub end: u32,
}

/// A value plus the span of the source text it was read from.
#[derive(Debug, Clone, PartialEq)]
pub struct Spanned<T> {
    pub value: T,
    pub span: ByteSpan,
}

/// What one parse produces: the `<beans>` document (when the root is one),
/// the encoding label the text was decoded with, and every anomaly found.
#[derive(Debug, PartialEq)]
pub struct ParseResult {
    pub beans: Option<BeansFile>,
    pub encoding: Option<String>,
    pub diagnostics: Vec<Diagnostic>,
}

/// One `<beans>` block: the document root or a nested `<beans profile=..>`.
#[derive(Debug, PartialEq)]
pub struct BeansFile {
    pub span: ByteSpan,
    pub profile: Option<Spanned<String>>,
    pub description: Option<Spanned<String>>,
    pub default_lazy_init: Option<bool>,
    pub default_autowire: Option<Spanned<String>>,
    pub default_init_method: Option<Spanned<String>>,
    pub default_destroy_method: Option<Spanned<String>>,
    pub default_merge: Option<bool>,
    pub default_autowire_candidates: Option<Spanned<String>>,
    pub imports: Vec<Spanned<Import>>,
    pub aliases: Vec<Spanned<Alias>>,
    pub beans: Vec<Bean>,
    pub component_scans: Vec<Spanned<ComponentScan>>,
    pub property_sources: Vec<Spanned<PropertySource>>,
    pub namespaced: Vec<NamespacedElement>,
    pub nested_profiles: Vec<BeansFile>,
}

/// One `<bean>` definition.
#[derive(Debug, PartialEq)]
pub struct Bean {
    pub span: ByteSpan,
    pub id: Option<Spanned<String>>,
    pub names: Vec<Spanned<String>>,
    pub class: Option<Spanned<ClassRef>>,
    pub parent: Option<Spanned<BeanRef>>,
    pub scope: Option<Spanned<String>>,
    pub abstract_: bool,
    pub lazy_init: Option<bool>,
    pub primary: bool,
    pub autowire: Option<Spanned<String>>,
    pub autowire_candidate: Option<bool>,
    pub depends_on: Vec<Spanned<BeanRef>>,
    pub factory_bean: Option<Spanned<BeanRef>>,
    pub factory_method: Option<Spanned<String>>,
    pub init_method: Option<Spanned<String>>,
    pub destroy_method: Option<Spanned<String>>,
    pub properties: Vec<Property>,
    pub constructor_args: Vec<ConstructorArg>,
    pub lookup_methods: Vec<Spanned<LookupMethod>>,
    pub replaced_methods: Vec<Spanned<ReplacedMethod>>,
    pub qualifiers: Vec<Qualifier>,
    pub decorators: Vec<NamespacedElement>,
    pub description: Option<Spanned<String>>,
    pub meta: Vec<MetaEntry>,
}

#[derive(Debug, PartialEq)]
pub struct Property {
    pub span: ByteSpan,
    pub name: Spanned<String>,
    pub value: InjectValue,
    pub meta: Vec<MetaEntry>,
}

#[derive(Debug, PartialEq)]
pub struct ConstructorArg {
    pub span: ByteSpan,
    pub index: Option<u32>,
    pub type_ref: Option<Spanned<ClassRef>>,
    pub name: Option<Spanned<String>>,
    pub value: InjectValue,
    pub meta: Vec<MetaEntry>,
}

#[derive(Debug, Clone, PartialEq)]
pub struct LookupMethod {
    pub name: Option<Spanned<String>>,
    pub bean: Option<Spanned<BeanRef>>,
}

#[derive(Debug, Clone, PartialEq)]
pub struct ReplacedMethod {
    pub name: Spanned<String>,
    pub replacer: Option<Spanned<BeanRef>>,
    pub arg_types: Vec<Spanned<String>>,
}

#[derive(Debug, Clone, PartialEq)]
pub struct Qualifier {
    pub span: ByteSpan,
    pub type_: Option<Spanned<ClassRef>>,
    pub value: Option<Spanned<String>>,
    pub attributes: Vec<AttrPair>,
}

/// The value injected into a property, constructor argument, collection
/// item, or map entry key/value.
#[derive(Debug, PartialEq)]
#[non_exhaustive]
pub enum InjectValue {
    Ref(Spanned<BeanRef>),
    Idref(Spanned<BeanRef>),
    Value(ValueLit),
    Inner(Box<Bean>),
    Collection(Spanned<Collection>),
    Null(ByteSpan),
    /// Never produced by the parser; stands for a value kind this version
    /// does not know when a serialized document is read back.
    Unrecognized,
}

/// A literal, with the `${..}` keys and `#{..}` bean-reference candidates
/// found inside it (collected, not evaluated).
#[derive(Debug, Clone, PartialEq)]
pub struct ValueLit {
    pub span: ByteSpan,
    pub text: Spanned<String>,
    pub value_type: Option<Spanned<ClassRef>>,
    pub placeholders: Vec<Spanned<String>>,
    pub spel_refs: Vec<Spanned<String>>,
}

#[derive(Debug, PartialEq)]
#[non_exhaustive]
#[allow(non_camel_case_types)]
pub enum Collection {
    List { items: Vec<InjectValue>, value_type: Option<Spanned<ClassRef>>, merge: Option<bool> },
    Set_ { items: Vec<InjectValue>, value_type: Option<Spanned<ClassRef>>, merge: Option<bool> },
    Array { items: Vec<InjectValue>, value_type: Option<Spanned<ClassRef>>, merge: Option<bool> },
    Map_ {
        entries: Vec<MapEntry>,
        key_type: Option<Spanned<ClassRef>>,
        value_type: Option<Spanned<ClassRef>>,
        merge: Option<bool>,
    },
    Props { entries: Vec<PropEntry>, merge: Option<bool> },
    /// Never produced by the parser; stands for a collection kind this
    /// version does not know when a serialized document is read back.
    Unrecognized,
}

#[derive(Debug, PartialEq)]
pub struct MapEntry {
    pub span: ByteSpan,
    pub key: InjectValue,
    pub value: InjectValue,
    pub value_type: Option<Spanned<ClassRef>>,
}

#[derive(Debug, Clone, PartialEq)]
pub struct PropEntry {
    pub span: ByteSpan,
    pub key: Spanned<String>,
    pub value: ValueLit,
}

#[derive(Debug, Clone, PartialEq)]
pub struct MetaEntry {
    pub key: Spanned<String>,
    pub value: Spanned<String>,
}

#[derive(Debug, Clone, PartialEq)]
pub struct AttrPair {
    pub key: Spanned<String>,
    pub value: Spanned<String>,
}

/// A reference to another bean by name, exactly as written.
#[derive(Debug, Clone, PartialEq)]
pub struct BeanRef {
    pub raw: String,
    pub kind: RefKind,
}

#[derive(Debug, Clone, Copy, PartialEq, Eq)]
pub enum RefKind {
    /// `ref=`, `bean=`, `parent=`, `depends-on=`, `factory-bean=`.
    Bean,
    /// `<ref local="x">`.
    Local,
    /// `<ref parent="x">`: a bean of an ancestor container.
    ParentContainer,
}

#[derive(Debug, Clone, PartialEq)]
pub struct Alias {
    pub name: Spanned<String>,
    pub alias: Spanned<String>,
}

#[derive(Debug, Clone, PartialEq)]
pub struct Import {
    pub resource: Spanned<String>,
    pub kind: ImportKind,
}

#[derive(Debug, Clone, Copy, PartialEq, Eq)]
pub enum ImportKind {
    Classpath,
    ClasspathStar,
    Relative,
    Url,
    Other,
}

#[derive(Debug, Clone, PartialEq)]
pub struct ComponentScan {
    pub base_packages: Vec<Spanned<String>>,
    pub use_default_filters: Option<bool>,
    pub include_filters: Vec<ScanFilter>,
    pub exclude_filters: Vec<ScanFilter>,
}

#[derive(Debug, Clone, PartialEq)]
pub struct ScanFilter {
    pub filter_type: Spanned<String>,
    pub expression: Spanned<String>,
}

#[derive(Debug, Clone, PartialEq)]
pub enum PropertySource {
    /// `context:property-placeholder`.
    Placeholder { locations: Vec<Spanned<String>> },
    /// `util:properties`.
    Properties { id: Option<Spanned<String>>, location: Option<Spanned<String>> },
}

/// A namespaced element kept as it stands (attributes, id, and the bean
/// references found on a fixed table of attributes in its subtree).
#[derive(Debug, Clone, PartialEq)]
pub struct NamespacedElement {
    pub ns: String,
    pub local: String,
    pub span: ByteSpan,
    pub id: Option<Spanned<String>>,
    pub attrs: Vec<AttrPair>,
    pub refs: Vec<Spanned<BeanRef>>,
}

/// A fully qualified class name, verbatim and never empty.
#[derive(Debug, Clone, PartialEq)]
pub struct ClassRef {
    pub raw: String,
}

#[derive(Debug, Clone, PartialEq)]
pub struct Diagnostic {
    pub code: DiagCode,
    pub span: Option<ByteSpan>,
    pub message: String,
}

#[derive(Debug, Clone, Copy, PartialEq, Eq)]
#[non_exhaustive]
pub enum DiagCode {
    EncodingUndetectable,
    EncodingMismatch,
    UnclosedTag,
    UnexpectedCloseTag,
    DuplicateAttribute,
    NotBeansRoot,
    DuplicateBeanId,
    BeanWithoutClassOrParent,
    ConflictingValueAndRef,
    RefWithoutTarget,
    UnknownElement,
    InvalidEntity,
    UnterminatedPlaceholder,
    NestingLimitExceeded,
    OversizeInput,
    /// Never produced by the parser; stands for a code this version does not
    /// know when a serialized document is read back.
    Other,
}

/// Accumulator for one `<beans>` body (the document root or a nested
/// `<beans profile=..>` block) while its children are dispatched.
#[derive(Debug)]
pub struct BeansFileCtx {
    pub span: ByteSpan,
    pub profile: Option<Spanned<String>>,
    pub description: Option<Spanned<String>>,
    pub default_lazy_init: Option<bool>,
    pub default_autowire: Option<Spanned<String>>,
    pub default_init_method: Option<Spanned<String>>,
    pub default_destroy_method: Option<Spanned<String>>,
    pub default_merge: Option<bool>,
    pub default_autowire_candidates: Option<Spanned<String>>,
    pub imports: Vec<Spanned<Import>>,
    pub aliases: Vec<Spanned<Alias>>,
    pub beans: Vec<Bean>,
    pub component_scans: Vec<Spanned<ComponentScan>>,
    pub property_sources: Vec<Spanned<PropertySource>>,
    pub namespaced: Vec<NamespacedElement>,
    pub nested_profiles: Vec<BeansFile>,
}

impl Default for BeansFileCtx {
    fn default() -> (r: Self)
        ensures
            r.span == (ByteSpan { start: 0, end: 0 }),
            r.profile is None,
            r.description is None,
            r.default_lazy_init is None,
            r.default_autowire is None,
            r.default_init_method is None,
            r.default_destroy_method is None,
            r.default_merge is None,
            r.default_autowire_candidates is None,
            r.imports@.len() == 0,
            r.aliases@.len() == 0,
            r.beans@.len() == 0,
            r.component_scans@.len() == 0,
            r.property_sources@.len() == 0,
            r.namespaced@.len() == 0,
            r.nested_profiles@.len() == 0,
    {
        BeansFileCtx {
            span: ByteSpan { start: 0, end: 0 },
            profile: None,
            description: None,
            default_lazy_init: None,
            default_autowire: None,
            default_init_method: None,
            default_destroy_method: None,
            default_merge: None,
            default_autowire_candidates: None,
            imports: Vec::new(),
            aliases: Vec::new(),
            beans: Vec::new(),
            component_scans: Vec::new(),
            property_sources: Vec::new(),
            namespaced: Vec::new(),
            nested_profiles: Vec::new(),
        }
    }
}

/// The `BeansFile` an accumulator becomes: every field moved over as is.
pub open spec fn beans_file_of(c: BeansFileCtx) -> BeansFile {
    BeansFile {
        span: c.span,
        profile: c.profile,
        description: c.description,
        default_lazy_init: c.default_lazy_init,
        default_autowire: c.default_autowire,
        default_init_method: c.default_init_method,
        default_destroy_method: c.default_destroy_method,
        default_merge: c.default_merge,
        default_autowire_candidates: c.default_autowire_candidates,
        imports: c.imports,
        aliases: c.aliases,
        beans: c.beans,
        component_scans: c.component_scans,
        property_sources: c.property_sources,
        namespaced: c.namespaced,
        nested_profiles: c.nested_profiles,
    }
}

impl BeansFileCtx {
    /// Final assembly: moves every accumulated field into a `BeansFile`.
    pub fn into_beans_file(self) -> (r: BeansFile)
        ensures
            r == beans_file_of(self),
    {
        BeansFile {
            span: self.span,
            profile: self.profile,
            description: self.description,
            default_lazy_init: self.default_lazy_init,
            default_autowire: self.default_autowire,
            default_init_method: self.default_init_method,
            default_destroy_method: self.default_destroy_method,
            default_merge: self.default_merge,
            default_autowire_candidates: self.default_autowire_candidates,
            imports: self.imports,
            aliases: self.aliases,
            beans: self.beans,
            component_scans: self.component_scans,
            property_sources: self.property_sources,
            namespaced: self.namespaced,
            nested_profiles: self.nested_profiles,
        }
    }
}

/// Accumulator for one `<bean>` element (top-level or inner) while its
/// attributes and children are dispatched.
#[derive(Debug)]
pub struct BeanCtx {
    pub span: ByteSpan,
    pub id: Option<Spanned<String>>,
    pub names: Vec<Spanned<String>>,
    pub class: Option<Spanned<ClassRef>>,
    pub parent: Option<Spanned<BeanRef>>,
    pub scope: Option<Spanned<String>>,
    pub abstract_: bool,
    pub lazy_init: Option<bool>,
    pub primary: bool,
    pub autowire: Option<Spanned<String>>,
    pub autowire_candidate: Option<bool>,
    pub depends_on: Vec<Spanned<BeanRef>>,
    pub factory_bean: Option<Spanned<BeanRef>>,
    pub factory_method: Option<Spanned<String>>,
    pub init_method: Option<Spanned<String>>,
    pub destroy_method: Option<Spanned<String>>,
    pub properties: Vec<Property>,
    pub constructor_args: Vec<ConstructorArg>,
    pub lookup_methods: Vec<Spanned<LookupMethod>>,
    pub replaced_methods: Vec<Spanned<ReplacedMethod>>,
    pub qualifiers: Vec<Qualifier>,
    pub decorators: Vec<NamespacedElement>,
    pub description: Option<Spanned<String>>,
    pub meta: Vec<MetaEntry>,
}

impl Default for BeanCtx {
    fn default() -> (r: Self)
        ensures
            r.span == (ByteSpan { start: 0, end: 0 }),
            r.id is None,
            r.names@.len() == 0,
            r.class is None,
            r.parent is None,
            r.scope is None,
            !r.abstract_,
            r.lazy_init is None,
            !r.primary,
            r.autowire is None,
            r.autowire_candidate is None,
            r.depends_on@.len() == 0,
            r.factory_bean is None,
            r.factory_method is None,
            r.init_method is None,
            r.destroy_method is None,
            r.properties@.len() == 0,
            r.constructor_args@.len() == 0,
            r.lookup_methods@.len() == 0,
            r.replaced_methods@.len() == 0,
            r.qualifiers@.len() == 0,
            r.decorators@.len() == 0,
            r.description is None,
            r.meta@.len() == 0,
    {
        BeanCtx {
            span: ByteSpan { start: 0, end: 0 },
            id: None,
            names: Vec::new(),
            class: None,
            parent: None,
            scope: None,
            abstract_: false,
            lazy_init: None,
            primary: false,
            autowire: None,
            autowire_candidate: None,
            depends_on: Vec::new(),
            factory_bean: None,
            factory_method: None,
            init_method: None,
            destroy_method: None,
            properties: Vec::new(),
            constructor_args: Vec::new(),
            lookup_methods: Vec::new(),
            replaced_methods: Vec::new(),
            qualifiers: Vec::new(),
            decorators: Vec::new(),
            description: None,
            meta: Vec::new(),
        }
    }
}

/// The `Bean` an accumulator becomes: every field moved over as is.
pub open spec fn bean_of(c: BeanCtx) -> Bean {
    Bean {
        span: c.span,
        id: c.id,
        names: c.names,
        class: c.class,
        parent: c.parent,
        scope: c.scope,
        abstract_: c.abstract_,
        lazy_init: c.lazy_init,
        primary: c.primary,
        autowire: c.autowire,
        autowire_candidate: c.autowire_candidate,
        depends_on: c.depends_on,
        factory_bean: c.factory_bean,
        factory_method: c.factory_method,
        init_method: c.init_method,
        destroy_method: c.destroy_method,
        properties: c.properties,
        constructor_args: c.constructor_args,
        lookup_methods: c.lookup_methods,
        replaced_methods: c.replaced_methods,
        qualifiers: c.qualifiers,
        decorators: c.decorators,
        description: c.description,
        meta: c.meta,
    }
}

impl BeanCtx {
    /// Final assembly: moves every accumulated field into a `Bean`.
    pub fn into_bean(self) -> (r: Bean)
        ensures
            r == bean_of(self),
    {
        Bean {
            span: self.span,
            id: self.id,
            names: self.names,
            class: self.class,
            parent: self.parent,
            scope: self.scope,
            abstract_: self.abstract_,
            lazy_init: self.lazy_init,
            primary: self.primary,
            autowire: self.autowire,
            autowire_candidate: self.autowire_candidate,
            depends_on: self.depends_on,
            factory_bean: self.factory_bean,
            factory_method: self.factory_method,
            init_method: self.init_method,
            destroy_method: self.destroy_method,
            properties: self.properties,
            constructor_args: self.constructor_args,
            lookup_methods: self.lookup_methods,
            replaced_methods: self.replaced_methods,
            qualifiers: self.qualifiers,
            decorators: self.decorators,
            description: self.description,
            meta: self.meta,
        }
    }
}

} // verus!
