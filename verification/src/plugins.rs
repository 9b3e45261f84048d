//! The order of a build's plugins: built-in ones around those of the user.

use vstd::prelude::*;

verus! {

/// One place in a build's plugin list.
#[derive(Debug)]
pub enum PluginSlot<P, R, L> {
    /// The built-in React plugin, for the given runtime.
    React { runtime: R },
    /// A plugin that the user supplied.
    User(P),
    /// The built-in plugin that loads styles inline.
    StyleLoader,
    /// The built-in plugin that emits style sheets as files of their own.
    CssSource,
    /// The built-in loader plugin, with the options given for it.
    Loader { options: L },
}

/// The options of a build that decide which built-in plugins it gets.
#[derive(Debug)]
pub struct BundleOptions<R, L> {
    /// The runtime that the React plugin is to use.
    pub react_runtime: R,
    /// Whether styles are loaded inline.
    pub inline_style: bool,
    /// The options of the loader plugin, if the build has one.
    pub loader: Option<L>,
}

/// The user's plugins, each in a slot.
pub open spec fn user_slots<P, R, L>(users: Seq<P>) -> Seq<PluginSlot<P, R, L>> {
    Seq::new(users.len(), |i: int| PluginSlot::User(users[i]))
}

/// The built-in plugins that come after the user's.
pub open spec fn trailing_slots<P, R, L>(inline_style: bool, loader: Option<L>) -> Seq<
    PluginSlot<P, R, L>,
> {
    let style = if inline_style {
        PluginSlot::StyleLoader
    } else {
        PluginSlot::CssSource
    };
    match loader {
        Some(options) => seq![style, PluginSlot::Loader { options }],
        None => seq![style],
    }
}

/// The plugin list of a build: the React plugin first, then the user's
/// plugins in their order, then the style plugin that the options choose,
/// then the loader plugin if the options hold any for it. The loader options
/// move into the list.
pub fn inject_built_in_plugins<P, R: Copy, L>(
    user_plugins: Vec<P>,
    options: &mut BundleOptions<R, L>,
) -> (plugins: Vec<PluginSlot<P, R, L>>)
    ensures
        plugins@ == seq![PluginSlot::React { runtime: old(options).react_runtime }] + user_slots(
            user_plugins@,
        ) + trailing_slots(old(options).inline_style, old(options).loader),
        final(options).loader is None,
        final(options).react_runtime == old(options).react_runtime,
        final(options).inline_style == old(options).inline_style,
{
    let ghost users = user_plugins@;
    let ghost head = seq![PluginSlot::<P, R, L>::React { runtime: options.react_runtime }];
    let mut plugins: Vec<PluginSlot<P, R, L>> = Vec::new();
    plugins.push(PluginSlot::React { runtime: options.react_runtime });
    assert(plugins@ =~= head + user_slots::<P, R, L>(users.take(0)));
    for plugin in it: user_plugins.into_iter()
        invariant
            it.seq() == users,
            plugins@ == head + user_slots::<P, R, L>(users.take(it.index() as int)),
    {
        plugins.push(PluginSlot::User(plugin));
        assert(plugins@ =~= head + user_slots::<P, R, L>(users.take(it.index() + 1)));
    }
    assert(users.take(users.len() as int) =~= users);
    if options.inline_style {
        plugins.push(PluginSlot::StyleLoader);
    } else {
        plugins.push(PluginSlot::CssSource);
    }
    let mut loader: Option<L> = None;
    std::mem::swap(&mut options.loader, &mut loader);
    if let Some(loader_options) = loader {
        plugins.push(PluginSlot::Loader { options: loader_options });
    }
    assert(plugins@ =~= head + user_slots::<P, R, L>(users) + trailing_slots::<P, R, L>(
        old(options).inline_style,
        old(options).loader,
    ));
    plugins
}

} // verus!
