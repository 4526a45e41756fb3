//! The packing methods that a user can choose, with the texts that
//! describe them and the defaults of their two parameters.

use vstd::prelude::*;

verus! {

/// A packing method.
#[derive(Clone, Copy, PartialEq, Eq, Debug, Structural)]
pub enum AlgoId {
    MaxRects,
    Guillotine,
    BottomLeft,
    NfpGreedy,
    SA,
    GA,
    SVGNest,
}

/// The full name of a method.
pub open spec fn label_text(a: AlgoId) -> Seq<char> {
    match a {
        AlgoId::MaxRects => "MaxRects 最大矩形"@,
        AlgoId::Guillotine => "Guillotine 断头台"@,
        AlgoId::BottomLeft => "Bottom-Left 天际线"@,
        AlgoId::NfpGreedy => "NFP 临界多边形贪心"@,
        AlgoId::SA => "SA 模拟退火"@,
        AlgoId::GA => "GA 遗传算法"@,
        AlgoId::SVGNest => "SVGNest 算法"@,
    }
}

/// The short name of a method.
pub open spec fn short_text(a: AlgoId) -> Seq<char> {
    match a {
        AlgoId::MaxRects => "MaxRects"@,
        AlgoId::Guillotine => "Guillotine"@,
        AlgoId::BottomLeft => "Bottom-Left"@,
        AlgoId::NfpGreedy => "NFP贪心"@,
        AlgoId::SA => "模拟退火SA"@,
        AlgoId::GA => "遗传算法GA"@,
        AlgoId::SVGNest => "SVGNest"@,
    }
}

/// What a method is good for.
pub open spec fn badge_text(a: AlgoId) -> Seq<char> {
    match a {
        AlgoId::MaxRects | AlgoId::Guillotine | AlgoId::BottomLeft => "通用/快速"@,
        AlgoId::NfpGreedy => "极限利用率"@,
        AlgoId::SA => "中等规模优化"@,
        AlgoId::GA => "大规模搜索"@,
        AlgoId::SVGNest => "复杂图形约束"@,
    }
}

/// How a method works.
pub open spec fn desc_text(a: AlgoId) -> Seq<char> {
    match a {
        AlgoId::MaxRects => "BSSF贪心，维护所有自由矩形，工业级标准算法"@,
        AlgoId::Guillotine => "模拟锯切，每刀产生两个矩形区域，贴近实际切割"@,
        AlgoId::BottomLeft => "图形靠左下紧凑放置，维护天际线高度图"@,
        AlgoId::NfpGreedy => "精确计算No-Fit Polygon边界，从所有接触点选最优"@,
        AlgoId::SA => "以概率接受较差解跳出局部最优，在MaxRects基础上搜索更优排列"@,
        AlgoId::GA => "OX交叉+精英保留，使用MaxRects评估适应度，搜索全局最优排列"@,
        AlgoId::SVGNest => "GA进化顺序 + NFP精确接触定位 + 最低重心评分"@,
    }
}

impl AlgoId {
    /// The full name of the method.
    pub fn label(&self) -> (r: &'static str)
        ensures
            r@ == label_text(*self),
    {
        match self {
            AlgoId::MaxRects => "MaxRects 最大矩形",
            AlgoId::Guillotine => "Guillotine 断头台",
            AlgoId::BottomLeft => "Bottom-Left 天际线",
            AlgoId::NfpGreedy => "NFP 临界多边形贪心",
            AlgoId::SA => "SA 模拟退火",
            AlgoId::GA => "GA 遗传算法",
            AlgoId::SVGNest => "SVGNest 算法",
        }
    }

    /// The short name of the method.
    pub fn short(&self) -> (r: &'static str)
        ensures
            r@ == short_text(*self),
    {
        match self {
            AlgoId::MaxRects => "MaxRects",
            AlgoId::Guillotine => "Guillotine",
            AlgoId::BottomLeft => "Bottom-Left",
            AlgoId::NfpGreedy => "NFP贪心",
            AlgoId::SA => "模拟退火SA",
            AlgoId::GA => "遗传算法GA",
            AlgoId::SVGNest => "SVGNest",
        }
    }

    /// What the method is good for.
    pub fn badge(&self) -> (r: &'static str)
        ensures
            r@ == badge_text(*self),
    {
        match self {
            AlgoId::MaxRects | AlgoId::Guillotine | AlgoId::BottomLeft => "通用/快速",
            AlgoId::NfpGreedy => "极限利用率",
            AlgoId::SA => "中等规模优化",
            AlgoId::GA => "大规模搜索",
            AlgoId::SVGNest => "复杂图形约束",
        }
    }

    /// How the method works.
    pub fn desc(&self) -> (r: &'static str)
        ensures
            r@ == desc_text(*self),
    {
        match self {
            AlgoId::MaxRects => "BSSF贪心，维护所有自由矩形，工业级标准算法",
            AlgoId::Guillotine => "模拟锯切，每刀产生两个矩形区域，贴近实际切割",
            AlgoId::BottomLeft => "图形靠左下紧凑放置，维护天际线高度图",
            AlgoId::NfpGreedy => "精确计算No-Fit Polygon边界，从所有接触点选最优",
            AlgoId::SA => "以概率接受较差解跳出局部最优，在MaxRects基础上搜索更优排列",
            AlgoId::GA => "OX交叉+精英保留，使用MaxRects评估适应度，搜索全局最优排列",
            AlgoId::SVGNest => "GA进化顺序 + NFP精确接触定位 + 最低重心评分",
        }
    }

    /// The method is a search with two tunable parameters.
    pub fn has_meta(&self) -> (r: bool)
        ensures
            r == (*self == AlgoId::SA || *self == AlgoId::GA || *self == AlgoId::SVGNest),
    {
        match self {
            AlgoId::SA | AlgoId::GA | AlgoId::SVGNest => true,
            _ => false,
        }
    }

    /// The name of the first parameter.
    pub fn p1_label(&self) -> (r: &'static str)
        ensures
            r@ == if *self == AlgoId::SA {
                "初始温度"@
            } else {
                "种群大小"@
            },
    {
        match self {
            AlgoId::SA => "初始温度",
            _ => "种群大小",
        }
    }

    /// The name of the second parameter.
    pub fn p2_label(&self) -> (r: &'static str)
        ensures
            r@ == if *self == AlgoId::SA {
                "迭代步数"@
            } else {
                "进化代数"@
            },
    {
        match self {
            AlgoId::SA => "迭代步数",
            _ => "进化代数",
        }
    }

    /// The default of the first parameter.
    pub fn default_p1(&self) -> (r: u32)
        ensures
            r == match *self {
                AlgoId::SA => 1000u32,
                AlgoId::GA => 30u32,
                _ => 20u32,
            },
    {
        match self {
            AlgoId::SA => 1000,
            AlgoId::GA => 30,
            AlgoId::SVGNest => 20,
            _ => 20,
        }
    }

    /// The default of the second parameter.
    pub fn default_p2(&self) -> (r: u32)
        ensures
            r == match *self {
                AlgoId::SA => 500u32,
                AlgoId::GA => 100u32,
                AlgoId::SVGNest => 60u32,
                _ => 80u32,
            },
    {
        match self {
            AlgoId::SA => 500,
            AlgoId::GA => 100,
            AlgoId::SVGNest => 60,
            _ => 80,
        }
    }
}

} // verus!
